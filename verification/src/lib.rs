//! Checks of a hardware description: the graph of dependencies between symbols, the rules for
//! embedded and included text, and the run of the check command.
pub mod analyzer_error;
pub mod check_embed_include;
pub mod check_run;
pub mod cmd_check;
pub mod context;
pub mod dag;
pub mod dag_arguments;
pub mod dag_growth;
pub mod dag_lemmas;
pub mod dag_origin;
pub mod dag_ranking;
pub mod dag_view;
pub mod dfs;
pub mod graph;
pub mod laws;
pub mod node_map;
pub mod relation;
pub mod report_laws;
pub mod requests;
pub mod room_laws;
pub mod symbol;
pub mod symbol_table;
pub mod table_laws;
pub mod text_order;
pub mod type_dag;
