//! Streaming market-indicator pipeline: exact-decimal arithmetic, a unified
//! candle stream, incremental EMA engines, RSI/MACD composers and a
//! crossover-confirmation signal state machine.

pub mod candle;
pub mod compose;
pub mod dec;
pub mod ema;
pub mod info;
pub mod parse;
pub mod signal;
