pub mod dag_processor;
