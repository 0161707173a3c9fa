//! A fixed-size worker pool, modelled as verified state: an unbounded job
//! queue with an explicit closed state, and a dispatcher that hands each job
//! to exactly one worker and lets workers stop only once the queue is drained.
//! The threads, the lock and the waiting live with the caller, which asks the
//! dispatcher what each worker does next. Beside it, the routing and response
//! layout of the small web server that feeds the pool.
pub mod dispatch;
pub mod http;
pub mod laws;
pub mod queue;
