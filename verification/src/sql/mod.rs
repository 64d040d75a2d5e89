pub mod adding;
pub mod asking;
pub mod answering;
pub mod ast;
pub mod atomicity;
pub mod changing;
pub mod codegen;
pub mod columns;
pub mod cost;
pub mod effects;
pub mod evaluation;
pub mod flow;
pub mod fractions;
pub mod grammar;
pub mod lexer;
pub mod listing;
pub mod meaning;
pub mod memo;
pub mod mutation;
pub mod operations;
pub mod optimize;
pub mod outcomes;
pub mod parser;
pub mod phrasing;
pub mod plan;
pub mod planner;
pub mod program;
pub mod reals;
pub mod relation;
pub mod results;
pub mod resuming;
pub mod running;
pub mod schema;
pub mod scripting;
pub mod semicolons;
pub mod session;
pub mod shell;
pub mod soundness;
pub mod spacing;
pub mod spelling;
pub mod storing;
pub mod straight;
pub mod text;
pub mod values;
pub mod vm;
pub mod writing;
