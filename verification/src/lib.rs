//! Verified model of a GRAFCET / GEMMA editor: the GRAFCET and GEMMA data
//! models, the GEMMA questionnaire, closed-circuit extraction, GRAFCET
//! generation and layout planning.
pub mod text;
pub mod grafcet;
pub mod gemma;
pub mod circuits;
pub mod closing;
pub mod questionnaire;
pub mod project;
pub mod generate;
pub mod diagram;
pub mod simulation;
pub mod layout;
pub mod tabs;
pub mod editing;
pub mod session;
pub mod storage;
