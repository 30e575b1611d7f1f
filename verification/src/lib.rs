//! Linear regression by mini-batch gradient descent over any number type:
//! tables and their partitioning, the model and its gradient, the training
//! loop, and the sums that score a fit. Beside it stand two small integer
//! utilities: trial-division factorisation and a search over blocked ranges.

pub mod batch;
pub mod bounds;
pub mod error;
pub mod intervals;
pub mod model;
pub mod normalize;
pub mod primes;
pub mod random;
pub mod score;
pub mod table;
pub mod trainer;
