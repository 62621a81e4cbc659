//! Embedding the report's JSON data in the HTML page.

use vstd::prelude::*;

use crate::text::{chars_of, string_from_chars};

verus! {

/// `\u003c`: how JSON writes `<` inside a string.
pub open spec fn escaped_less_than() -> Seq<char> {
    seq!['\\', 'u', '0', '0', '3', 'c']
}

/// Every `<` replaced by `\u003c`.
pub open spec fn escaped(s: Seq<char>) -> Seq<char>
    decreases s.len(),
{
    if s.len() == 0 {
        Seq::<char>::empty()
    } else {
        escaped(s.drop_last()) + if s.last() == '<' {
            escaped_less_than()
        } else {
            seq![s.last()]
        }
    }
}

/// `<` only occurs inside JSON strings, where `\u003c` is equivalent; this
/// keeps DAG ids like `</script>` from terminating the embedding tag.
pub fn escape_for_script(json: &str) -> (out: String)
    ensures
        out@ == escaped(json@),
{
    let chars = chars_of(json);
    let mut out: Vec<char> = Vec::new();
    let mut i: usize = 0;
    while i < chars.len()
        invariant
            i <= chars.len(),
            out@ == escaped(chars@.take(i as int)),
        decreases chars.len() - i,
    {
        let c = chars[i];
        let ghost before = out@;
        proof {
            assert(chars@.take(i + 1).drop_last() =~= chars@.take(i as int));
        }
        if c == '<' {
            out.push('\\');
            out.push('u');
            out.push('0');
            out.push('0');
            out.push('3');
            out.push('c');
            assert(out@ =~= before + escaped_less_than());
        } else {
            out.push(c);
            assert(out@ =~= before + seq![c]);
        }
        i = i + 1;
    }
    assert(chars@.take(chars.len() as int) =~= chars@);
    string_from_chars(&out)
}

proof fn lemma_escaped_concat(a: Seq<char>, b: Seq<char>)
    ensures
        escaped(a + b) == escaped(a) + escaped(b),
    decreases b.len(),
{
    if b.len() == 0 {
        assert(a + b =~= a);
        assert(escaped(b) =~= Seq::<char>::empty());
        assert(escaped(a) + escaped(b) =~= escaped(a));
    } else {
        lemma_escaped_concat(a, b.drop_last());
        assert((a + b).drop_last() =~= a + b.drop_last());
        assert((a + b).last() == b.last());
        let tail = if b.last() == '<' {
            escaped_less_than()
        } else {
            seq![b.last()]
        };
        assert(escaped(a) + escaped(b.drop_last()) + tail =~= escaped(a) + (escaped(b.drop_last())
            + tail));
    }
}

proof fn lemma_escaped_free(s: Seq<char>)
    requires
        !s.contains('<'),
    ensures
        escaped(s) == s,
    decreases s.len(),
{
    if s.len() > 0 {
        assert(!s.drop_last().contains('<')) by {
            if s.drop_last().contains('<') {
                let k = choose|k: int| 0 <= k < s.drop_last().len() && s.drop_last()[k] == '<';
                assert(s[k] == '<');
            }
        }
        lemma_escaped_free(s.drop_last());
        assert(s[s.len() - 1] != '<');
        assert(s.drop_last() + seq![s.last()] =~= s);
    }
}

/// Escaping leaves no `<` in the text, so nothing in the data can close the
/// surrounding script tag.
pub proof fn law_escaped_has_no_less_than(s: Seq<char>)
    ensures
        !escaped(s).contains('<'),
    decreases s.len(),
{
    if s.len() > 0 {
        law_escaped_has_no_less_than(s.drop_last());
        let tail = if s.last() == '<' {
            escaped_less_than()
        } else {
            seq![s.last()]
        };
        assert(!tail.contains('<')) by {
            if tail.contains('<') {
                let k = choose|k: int| 0 <= k < tail.len() && tail[k] == '<';
            }
        }
        let whole = escaped(s.drop_last()) + tail;
        assert(!whole.contains('<')) by {
            if whole.contains('<') {
                let k = choose|k: int| 0 <= k < whole.len() && whole[k] == '<';
                if k < escaped(s.drop_last()).len() {
                    assert(escaped(s.drop_last())[k] == '<');
                } else {
                    assert(tail[k - escaped(s.drop_last()).len()] == '<');
                }
            }
        }
    }
}

/// Escaping an already escaped text changes nothing.
pub proof fn law_escape_idempotent(s: Seq<char>)
    ensures
        escaped(escaped(s)) == escaped(s),
{
    law_escaped_has_no_less_than(s);
    lemma_escaped_free(escaped(s));
}

/// Escaping works piece by piece: the escape of a concatenation is the
/// concatenation of the escapes.
pub proof fn law_escape_concat(a: Seq<char>, b: Seq<char>)
    ensures
        escaped(a + b) == escaped(a) + escaped(b),
{
    lemma_escaped_concat(a, b);
}

/// How many `<` the text holds.
pub open spec fn less_than_count(s: Seq<char>) -> nat
    decreases s.len(),
{
    if s.len() == 0 {
        0
    } else {
        less_than_count(s.drop_last()) + if s.last() == '<' {
            1nat
        } else {
            0nat
        }
    }
}

/// The escape of one character.
pub open spec fn escape_one(c: char) -> Seq<char> {
    if c == '<' {
        escaped_less_than()
    } else {
        seq![c]
    }
}

/// `\u003c` starts at index `i` of `s`.
pub open spec fn escape_at(s: Seq<char>, i: int) -> bool {
    0 <= i && i + 6 <= s.len() && s.subrange(i, i + 6) == escaped_less_than()
}

/// Every `\u003c` turned back into `<`, from the left, as `str::replace` does.
pub open spec fn unescaped(t: Seq<char>) -> Seq<char>
    decreases t.len(),
{
    if t.len() == 0 {
        Seq::<char>::empty()
    } else if escape_at(t, 0) {
        seq!['<'] + unescaped(t.skip(6))
    } else {
        seq![t[0]] + unescaped(t.skip(1))
    }
}

proof fn lemma_escaped_front(s: Seq<char>)
    requires
        s.len() > 0,
    ensures
        escaped(s) == escape_one(s[0]) + escaped(s.skip(1)),
{
    let head = seq![s[0]];
    assert(head + s.skip(1) =~= s);
    lemma_escaped_concat(head, s.skip(1));
    assert(head.drop_last() =~= Seq::<char>::empty());
    assert(escaped(head.drop_last()) =~= Seq::<char>::empty());
    assert(head.last() == s[0]);
    assert(escaped(head) == escaped(head.drop_last()) + escape_one(s[0]));
    assert(escaped(head) =~= escape_one(s[0]));
}

/// Where the escape starts with `k` characters other than `\`, those are the
/// text's own first `k` characters.
proof fn lemma_plain_prefix(r: Seq<char>, k: int)
    requires
        0 <= k <= escaped(r).len(),
        forall|j: int| 0 <= j < k ==> escaped(r)[j] != '\\',
    ensures
        k <= r.len(),
        r.take(k) =~= escaped(r).take(k),
    decreases k,
{
    if k > 0 {
        if r.len() == 0 {
            assert(escaped(r).len() == 0);
        }
        lemma_escaped_front(r);
        let rest = r.skip(1);
        if r[0] == '<' {
            assert(escaped(r)[0] == '\\');
        }
        assert(escaped(r) == seq![r[0]] + escaped(rest));
        assert forall|j: int| 0 <= j < k - 1 implies escaped(rest)[j] != '\\' by {
            assert(escaped(rest)[j] == escaped(r)[j + 1]);
        }
        lemma_plain_prefix(rest, k - 1);
        assert(r.take(k) =~= seq![r[0]] + rest.take(k - 1));
        assert(escaped(r).take(k) =~= seq![r[0]] + escaped(rest).take(k - 1));
    }
}

/// Escaping makes the text five characters longer for every `<`.
pub proof fn law_escape_length(s: Seq<char>)
    ensures
        escaped(s).len() == s.len() + 5 * less_than_count(s),
    decreases s.len(),
{
    if s.len() > 0 {
        law_escape_length(s.drop_last());
    }
}

/// Escaping is undone by turning every `\u003c` back into `<`, when the text
/// held no `\u003c` of its own.
pub proof fn law_unescape_gives_back(s: Seq<char>)
    requires
        forall|i: int| !escape_at(s, i),
    ensures
        unescaped(escaped(s)) == s,
    decreases s.len(),
{
    if s.len() == 0 {
        assert(escaped(s) =~= Seq::<char>::empty());
    } else {
        let rest = s.skip(1);
        assert forall|i: int| !escape_at(rest, i) by {
            if escape_at(rest, i) {
                assert(s.subrange(i + 1, i + 7) =~= rest.subrange(i, i + 6));
                assert(escape_at(s, i + 1));
            }
        }
        law_unescape_gives_back(rest);
        lemma_escaped_front(s);
        let e = escaped(s);
        if s[0] == '<' {
            assert(e.subrange(0, 6) =~= escaped_less_than());
            assert(escape_at(e, 0));
            assert(e.skip(6) =~= escaped(rest));
            assert(unescaped(e) == seq!['<'] + unescaped(escaped(rest)));
            assert(seq!['<'] + rest =~= s);
        } else {
            assert(e == seq![s[0]] + escaped(rest));
            if escape_at(e, 0) {
                assert(e[0] == '\\');
                assert forall|j: int| 0 <= j < 5 implies escaped(rest)[j] != '\\' by {
                    assert(escaped(rest)[j] == e[j + 1]);
                    assert(e[j + 1] == e.subrange(0, 6)[j + 1]);
                }
                lemma_plain_prefix(rest, 5);
                assert(s.subrange(0, 6) =~= e.subrange(0, 6)) by {
                    assert forall|j: int| 1 <= j < 6 implies s[j] == e[j] by {
                        assert(s[j] == rest[j - 1]);
                        assert(rest.take(5)[j - 1] == escaped(rest).take(5)[j - 1]);
                    }
                }
                assert(escape_at(s, 0));
            }
            assert(e.skip(1) =~= escaped(rest));
            assert(unescaped(e) == seq![s[0]] + unescaped(escaped(rest)));
            assert(seq![s[0]] + rest =~= s);
        }
    }
}

} // verus!
