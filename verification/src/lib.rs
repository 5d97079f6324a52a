//! A verified finite element core for time harmonic electromagnetic fields.

pub mod accuracy;
pub mod alike;
pub mod assembled;
pub mod assembly;
pub mod boundaries;
pub mod cards;
pub mod circuits;
pub mod clauses;
pub mod complex;
pub mod deck;
pub mod derived;
pub mod diagnostics;
pub mod edges;
pub mod element;
pub mod entries;
pub mod exact;
pub mod fixed;
pub mod groups;
pub mod idle;
pub mod integrals;
pub mod isolated;
pub mod ldl;
pub mod loss;
pub mod measures;
pub mod msh;
pub mod network;
pub mod order;
pub mod outcome;
pub mod page;
pub mod pairs;
pub mod ports;
pub mod profile;
pub mod rcm;
pub mod readings;
pub mod reals;
pub mod refine;
pub mod reversal;
pub mod roots;
pub mod rounding;
pub mod scalar;
pub mod sections;
pub mod sheets;
pub mod skyline;
pub mod sweep;
pub mod system;
pub mod text;
pub mod uniform;
pub mod whitney;
