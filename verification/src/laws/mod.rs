//! What holds of the library as a whole.

pub mod accepted_documents;
pub mod answers;
pub mod blocks;
pub mod conditions;
pub mod convolutions;
pub mod documents;
pub mod fitting;
pub mod functions;
pub mod gates;
pub mod kept;
pub mod layout;
pub mod loading;
pub mod memory;
pub mod network_documents;
pub mod numbers;
pub mod recurrent;
pub mod refused;
pub mod resets;
pub mod running;
pub mod selection;
pub mod sessions;
pub mod shares;
pub mod sizes;
pub mod slices;
pub mod stack_documents;
pub mod streams;
pub mod tight;
pub mod values;
pub mod wiring;
pub mod words;
