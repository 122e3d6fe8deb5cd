pub mod types;
pub mod libb;
pub mod calculator;
pub mod greedy;
pub mod tracker;
pub mod planning;
pub mod run;
pub mod fallback;
pub mod mock;
pub mod protocol;
pub mod interactor;
pub mod tester;
pub mod laws;
