//! Chat messages between peers, and the clock that stamps them.

use vstd::prelude::*;

verus! {

/// A text message from one peer to another.
pub struct ChatMessage {
    pub sender: String,
    pub message: String,
    pub timestamp: u64,
}

#[verifier::external_type_specification]
#[verifier::external_body]
pub struct ExSystemTime(std::time::SystemTime);

/// Relies on `SystemTime::now`: the current system time; nothing is known of its value.
#[verifier::external_body]
fn system_now() -> (r: std::time::SystemTime) {
    std::time::SystemTime::now()
}

/// Relies on `SystemTime::duration_since(UNIX_EPOCH)`: the time elapsed since
/// the Unix epoch, or nothing when `t` lies before it.
#[verifier::external_body]
fn elapsed_since_epoch(t: &std::time::SystemTime) -> (r: Option<std::time::Duration>) {
    t.duration_since(std::time::UNIX_EPOCH).ok()
}

/// Relies on `Duration::as_secs`: the whole seconds of `d`.
#[verifier::external_body]
fn whole_seconds(d: &std::time::Duration) -> (r: u64) {
    d.as_secs()
}

/// The current time in seconds since the Unix epoch; zero if the system clock
/// reads a time before the epoch.
pub fn current_timestamp() -> (r: u64) {
    let now = system_now();
    match elapsed_since_epoch(&now) {
        Some(d) => whole_seconds(&d),
        None => 0,
    }
}

/// A message from `sender`, stamped with the current time.
pub fn new_chat_message(sender: String, message: String) -> (r: ChatMessage)
    ensures
        r.sender@ == sender@,
        r.message@ == message@,
{
    ChatMessage { sender, message, timestamp: current_timestamp() }
}

} // verus!
