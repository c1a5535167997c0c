pub mod ast;
pub mod attribute;
pub mod bits;
pub mod container_laws;
pub mod credit_laws;
pub mod distance;
pub mod distance_laws;
pub mod evaluator;
pub mod field_index;
pub mod field_laws;
pub mod file_laws;
pub mod filter_expr;
pub mod formats;
pub mod formats_laws;
pub mod fractions;
pub mod index_build;
pub mod inline_labels;
pub mod inline_laws;
pub mod knn;
pub mod knn_laws;
pub mod label_laws;
pub mod labels;
pub mod load_laws;
pub mod merge_laws;
pub mod nearest_laws;
pub mod point_laws;
pub mod provider;
pub mod recall;
pub mod recall_laws;
pub mod route_laws;
pub mod routing;
pub mod routing_laws;
pub mod run_laws;
pub mod scan_laws;
pub mod search;
pub mod search_laws;
pub mod sorting;
pub mod store;
pub mod store_laws;
pub mod store_model;
pub mod summary_laws;
pub mod table_laws;
pub mod treemap;
pub mod value_laws;
pub mod value_table;
pub mod values;
