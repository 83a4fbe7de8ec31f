pub mod bit_utils;
pub mod nat_v4;
pub mod networkingv6;
