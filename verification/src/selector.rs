pub mod auto;
pub mod champion;
pub mod trait_selector;
