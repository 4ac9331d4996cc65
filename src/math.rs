pub mod number_theory;
