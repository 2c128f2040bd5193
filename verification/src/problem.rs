//! The functional modules of the landscape generator.
//!
//! The model: [`landscape`] says what a landscape is and what fitness it
//! gives an assignment, [`optimum`] what the solvers compute, [`subtree`] and
//! [`expansion`] hold the theory of sums over the clique tree and of the
//! growth of the set of optima, [`order`] the places of the optima in the
//! list that is returned, and [`optimality`] and [`laws`] what follows for the
//! optima that are reported.
//!
//! The code: [`construction`] builds clique trees, [`separable`] and
//! [`elimination`] compute global optima, [`evaluation`] computes the fitness
//! of solutions, [`clique_tree`] puts them together, and [`validation`]
//! checks inputs. [`codomain_subclasses`] and [`codomain`] generate value
//! tables, [`configuration`] goes through ranges of parameters, and [`text`],
//! [`fitness_text`], [`parameter_text`] and [`problem_generation`] read and
//! write the text of files.

pub mod bit_strings;
pub mod clique_tree;
pub mod codomain;
pub mod codomain_subclasses;
pub mod configuration;
pub mod construction;
pub mod elimination;
pub mod evaluation;
pub mod expansion;
pub mod fitness;
pub mod fitness_text;
pub mod landscape;
pub mod laws;
pub mod optimality;
pub mod optimum;
pub mod order;
pub mod parameter_text;
pub mod problem_generation;
pub mod separable;
pub mod subtree;
pub mod text;
pub mod validation;
