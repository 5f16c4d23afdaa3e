//! A segmented Sieve of Eratosthenes.
//!
//! The library finds every prime in a half-open range `[2, limit)` by first
//! sieving a small base range up to the square root of the limit, then
//! sieving the remaining range in independent contiguous segments against
//! the base primes, and finally merging the segment results and deriving
//! the prime count, the prime sum, and the ten largest primes.

pub mod aggregate;
pub mod base;
pub mod number_theory;
pub mod partition;
pub mod pipeline;
pub mod segment;

pub use aggregate::RunSummary;
pub use base::sieve;
pub use number_theory::is_prime;
pub use number_theory::primes_below;
pub use number_theory::primes_in_range;
pub use partition::make_segments;
pub use pipeline::ConfigError;
pub use pipeline::run;
pub use segment::calculate_segment;
