//! Insight persistence: an append-only log answering "the latest N".

use vstd::prelude::*;

use crate::text::chars_of;

verus! {

/// The last `min(limit, len)` elements of `s`, oldest first.
pub open spec fn latest_of<T>(s: Seq<T>, limit: nat) -> Seq<T> {
    if limit >= s.len() {
        s
    } else {
        s.subrange(s.len() - limit, s.len() as int)
    }
}

/// An append-only log of findings.
pub struct InsightLog<T> {
    items: Vec<T>,
}

impl<T> InsightLog<T> {
    /// Everything put so far, oldest first.
    pub closed spec fn items(&self) -> Seq<T> {
        self.items@
    }

    pub fn new() -> (r: Self)
        ensures
            r.items() == Seq::<T>::empty(),
    {
        InsightLog { items: Vec::new() }
    }

    /// Appends `item`.
    pub fn put(&mut self, item: T)
        ensures
            final(self).items() == old(self).items().push(item),
    {
        self.items.push(item);
    }

    pub fn len(&self) -> (n: usize)
        ensures
            n == self.items().len(),
    {
        self.items.len()
    }

    /// The `limit` most recent items (all of them where there are fewer),
    /// oldest first.
    pub fn latest(&self, limit: usize) -> (r: &[T])
        ensures
            r@ == latest_of(self.items(), limit as nat),
    {
        let len = self.items.len();
        let start = len.saturating_sub(limit);
        let (_, tail) = self.items.as_slice().split_at(start);
        assert(self.items@.subrange(0, len as int) =~= self.items@);
        tail
    }
}

/// A read after a write gives the write back: right after `put(x)`, the
/// latest `limit` items (for `limit >= 1`) end with `x`, preceded by the
/// latest `limit - 1` items from before.
pub proof fn lemma_latest_after_put<T>(s: Seq<T>, x: T, limit: nat)
    requires
        limit >= 1,
    ensures
        latest_of(s.push(x), limit) == latest_of(s, (limit - 1) as nat).push(x),
        latest_of(s.push(x), 1) == seq![x],
{
    assert(latest_of(s.push(x), limit) =~= latest_of(s, (limit - 1) as nat).push(x));
    assert(latest_of(s.push(x), 1) =~= seq![x]);
}

/// A ClickHouse-backed store, addressed by its endpoint.
pub struct ClickHouseStore {
    endpoint: String,
}

impl ClickHouseStore {
    pub closed spec fn endpoint(&self) -> Seq<char> {
        self.endpoint@
    }

    pub fn new(endpoint: &str) -> (r: Self)
        ensures
            r.endpoint() == endpoint@,
    {
        let v = chars_of(endpoint);
        ClickHouseStore { endpoint: crate::text::string_of(&v) }
    }
}

} // verus!
