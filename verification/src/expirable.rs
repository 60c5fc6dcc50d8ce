use vstd::prelude::*;

verus! {

/// A cached value tagged with the tick count of its creation, compared
/// against a file's modification time to decide staleness.
///
/// Ticks are nanoseconds since the Unix epoch, as an unsigned count.
#[derive(Debug)]
pub struct Expirable<T> {
    pub data: T,
    pub created_at: u64,
}

/// Relies on `std::time::SystemTime::now` and `duration_since`: reads the
/// system clock. Nothing can be promised of the value read.
#[verifier::external_body]
fn clock_ticks() -> u64 {
    std::time::SystemTime::now()
        .duration_since(std::time::SystemTime::UNIX_EPOCH)
        .map(|d| d.as_nanos() as u64)
        .unwrap_or(0)
}

impl<T> Expirable<T> {
    /// Wraps `data` with the current clock reading as its creation time.
    pub fn now(data: T) -> (r: Self)
        ensures
            r.data == data,
    {
        Self { data, created_at: clock_ticks() }
    }

    /// Wraps `data` with an explicit creation timestamp.
    pub fn with_timestamp(data: T, created_at: u64) -> (r: Self)
        ensures
            r.created_at == created_at,
            r.data == data,
    {
        Self { data, created_at }
    }

    /// The tick count at which this entry was created.
    pub fn created_at(&self) -> (r: u64)
        ensures
            r == self.created_at,
    {
        self.created_at
    }

    /// An entry is expired exactly when its creation time predates `new_time`.
    pub fn expired(&self, new_time: u64) -> (r: bool)
        ensures
            r == (self.created_at < new_time),
    {
        self.created_at < new_time
    }

    /// Borrows the cached value.
    pub fn data(&self) -> (r: &T)
        ensures
            r == self.data,
    {
        &self.data
    }
}

} // verus!
