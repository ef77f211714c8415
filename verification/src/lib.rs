pub mod cache;
pub mod cli;
pub mod feature;
pub mod index;
pub mod matcher;
pub mod output;
pub mod parser;
pub mod text;

pub use feature::{parse_feature_steps, FeatureStep};
pub use index::{Index, IndexBuilder};
pub use matcher::{BindingIndex, MatchResult};
pub use parser::{parse_bindings, Binding, StepKind};
