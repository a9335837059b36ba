//! A load balancer that spreads client requests over subscribed backend
//! servers according to one of several selection strategies: round robin,
//! sticky round robin, weighted round robin, least connections and least
//! response time. Backend servers subscribe with the line
//! `subscribe <address> <weight>`.

pub mod backend;
pub mod balancer;
pub mod laws;
pub mod session;
pub mod strategy;
pub mod subscription;
pub mod text;
pub mod weights;

pub use backend::{client_request, server_reply, server_weight};
pub use balancer::{
    health_check_time, BalancerView, ForwardFailure, LoadBalancer, Server,
    DEFAULT_RESPONSE_TIME_NANOS, HEALTH_CHECK_INTERVAL_SECS, UNREACHABLE_RESPONSE_TIME_NANOS,
};
pub use session::{SessionAction, SessionEvent, SessionState};
pub use strategy::Strategy;
pub use subscription::{
    accepted_reply, parse_subscription, subscription_message, Subscription, SubscriptionError,
};
