use vstd::prelude::*;

pub mod constraint;
pub mod dropdown;
pub mod database;
pub mod emptyconstraint;
pub mod emptyselection;
pub mod export;
pub mod mailing;
pub mod message;
pub mod names;
pub mod number;
pub mod order;
pub mod preferences;
pub mod presenter;
pub mod references;
pub mod selection;
pub mod shortform;
pub mod storage;
pub mod telemetry;
pub mod text;
pub mod town;
pub mod url;
pub mod view;
pub mod world;

verus! {
}
