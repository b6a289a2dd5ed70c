//! Verified core of a completion procedure for unit equalities over slotted e-graphs.
//!
//! - `slots`, `unifier`: slot maps, applied ids and substitutions as sorted maps.
//! - `renaming`: renaming of slots, transport of memoised unification results, the
//!   occurs check on applied ids, and the context of unifier instantiation.
//! - `unify`: syntactic unification of terms with lazily applied bindings.
//! - `analysis`: the size and symbol analyses of e-classes and the size cost.
//! - `worklist`, `parents`: the two worklists of the procedure and the search for the
//!   classes above changed ones.
//! - `depth`, `runner`, `report`: recursion budget, stopping rules and stop reasons.
//! - `equations`: reading equations and writing the patterns of function symbols.
//! - `egraph`: a snapshot of an e-graph (union-find entries, slots, e-nodes and analysis
//!   data of each class) and tables keyed by pairs of classes.
//! - `morphism`: morphisms between classes of the snapshot, and the decision whether
//!   one relates two given classes.
//! - `mgu_laws`: what it is for a substitution to make two classes equal, and that class
//!   unification gives such substitutions.
//! - `subsumption`, `mgu`, `extract`: subsumption between classes, unification of
//!   classes through their e-nodes, and unification through their extracted terms.
//! - `merge`, `deduction`, `instantiate`: the walks and decisions of the merge and
//!   deduction steps, question by question, and the rounds in which a unifier is
//!   instantiated on the e-nodes of a class.

pub mod slots;
pub mod unifier;
pub mod renaming;
pub mod unify;
pub mod analysis;
pub mod worklist;
pub mod parents;
pub mod depth;
pub mod runner;
pub mod report;
pub mod equations;
pub mod egraph;
pub mod subsumption;
pub mod mgu;
pub mod extract;
pub mod merge;
pub mod deduction;
pub mod instantiate;
pub mod morphism;
pub mod mgu_laws;
