//! Header index: the best chain's headers, contiguous from the genesis
//! block, looked up by height or by block hash.
use vstd::prelude::*;

use crate::bytes::bytes_eq;

verus! {

/// The entries a list of headers holds.
pub open spec fn headers_view(s: Seq<HeaderEntry>) -> Seq<HeaderEntryV> {
    s.map_values(|h: HeaderEntry| h@)
}

/// One chain header: its height, its hash, its parent's hash, its timestamp
/// and its raw bytes.
pub struct HeaderEntry {
    pub height: u32,
    pub hash: Vec<u8>,
    pub prev_hash: Vec<u8>,
    pub time: u32,
    pub header_bytes: Vec<u8>,
}

pub ghost struct HeaderEntryV {
    pub height: u32,
    pub hash: Seq<u8>,
    pub prev_hash: Seq<u8>,
    pub time: u32,
    pub header_bytes: Seq<u8>,
}

impl View for HeaderEntry {
    type V = HeaderEntryV;

    open spec fn view(&self) -> HeaderEntryV {
        HeaderEntryV {
            height: self.height,
            hash: self.hash@,
            prev_hash: self.prev_hash@,
            time: self.time,
            header_bytes: self.header_bytes@,
        }
    }
}

impl HeaderEntryV {
    pub open spec fn wf(self) -> bool {
        self.hash.len() == 32 && self.prev_hash.len() == 32
    }
}

impl HeaderEntry {
    pub open spec fn wf(&self) -> bool {
        self@.wf()
    }

    /// A fresh entry with the same content.
    pub fn duplicate(&self) -> (r: HeaderEntry)
        ensures
            r@ == self@,
    {
        let hash = self.hash.clone();
        let prev_hash = self.prev_hash.clone();
        let header_bytes = self.header_bytes.clone();
        proof {
            assert(hash@ =~= self.hash@);
            assert(prev_hash@ =~= self.prev_hash@);
            assert(header_bytes@ =~= self.header_bytes@);
        }
        HeaderEntry {
            height: self.height,
            hash,
            prev_hash,
            time: self.time,
            header_bytes,
        }
    }
}

/// The best chain's headers: entry `i` sits at height `i` and links to its
/// parent.
pub struct HeaderIndex {
    headers: Vec<HeaderEntry>,
}

impl View for HeaderIndex {
    type V = Seq<HeaderEntryV>;

    closed spec fn view(&self) -> Seq<HeaderEntryV> {
        self.headers@.map_values(|h: HeaderEntry| h@)
    }
}

impl HeaderIndex {
    /// Heights are the positions, and each entry names its parent's hash.
    pub open spec fn wf(&self) -> bool {
        &&& forall|i: int| 0 <= i < self@.len() ==> (#[trigger] self@[i]).wf()
        &&& forall|i: int| 0 <= i < self@.len() ==> (#[trigger] self@[i]).height == i
        &&& forall|i: int|
            0 < i < self@.len() ==> (#[trigger] self@[i]).prev_hash == self@[i - 1].hash
    }

    pub fn new() -> (r: HeaderIndex)
        ensures
            r.wf(),
            r@ == Seq::<HeaderEntryV>::empty(),
    {
        let r = HeaderIndex { headers: Vec::new() };
        proof {
            assert(r@ =~= Seq::<HeaderEntryV>::empty());
        }
        r
    }

    /// How many headers the index holds.
    pub fn len(&self) -> (r: usize)
        ensures
            r == self@.len(),
    {
        self.headers.len()
    }

    /// Extend the chain by one header.
    pub fn push_header(&mut self, entry: HeaderEntry)
        requires
            old(self).wf(),
            entry.wf(),
            entry@.height == old(self)@.len(),
            old(self)@.len() > 0 ==> entry@.prev_hash == old(self)@.last().hash,
            old(self)@.len() < u32::MAX,
        ensures
            final(self).wf(),
            final(self)@ == old(self)@.push(entry@),
    {
        let ghost pre = self@;
        let ghost ev = entry@;
        self.headers.push(entry);
        proof {
            assert(self@ =~= pre.push(ev));
        }
    }

    /// The header at `height`, if the chain reaches it.
    pub fn header_by_height(&self, height: usize) -> (r: Option<HeaderEntry>)
        requires
            self.wf(),
        ensures
            match r {
                Some(h) => height < self@.len() && h@ == self@[height as int] && h.wf(),
                None => height >= self@.len(),
            },
    {
        if height < self.headers.len() {
            proof {
                assert(self@[height as int] == self.headers@[height as int]@);
            }
            Some(self.headers[height].duplicate())
        } else {
            None
        }
    }

    /// The header whose hash is `hash`, if it is on the best chain.
    pub fn header_by_hash(&self, hash: &Vec<u8>) -> (r: Option<HeaderEntry>)
        requires
            self.wf(),
        ensures
            match r {
                Some(h) => h.wf() && h@.hash == hash@ && exists|i: int|
                    0 <= i < self@.len() && (#[trigger] self@[i]) == h@,
                None => forall|i: int| 0 <= i < self@.len() ==> (#[trigger] self@[i]).hash != hash@,
            },
    {
        let n = self.headers.len();
        let mut i: usize = 0;
        while i < n
            invariant
                n == self.headers.len(),
                self@.len() == n,
                i <= n,
                self.wf(),
                forall|j: int| 0 <= j < i ==> (#[trigger] self@[j]).hash != hash@,
            decreases n - i,
        {
            proof {
                assert(self@[i as int] == self.headers@[i as int]@);
            }
            if bytes_eq(&self.headers[i].hash, hash) {
                let h = self.headers[i].duplicate();
                proof {
                    assert(self@[i as int].hash == hash@);
                }
                return Some(h);
            }
            i = i + 1;
        }
        None
    }

    /// The tip of the chain, if the index is not empty.
    pub fn best_header(&self) -> (r: Option<HeaderEntry>)
        requires
            self.wf(),
        ensures
            match r {
                Some(h) => self@.len() > 0 && h@ == self@.last() && h.wf(),
                None => self@.len() == 0,
            },
    {
        let n = self.headers.len();
        if n == 0 {
            None
        } else {
            proof {
                assert(self@[n - 1] == self.headers@[n - 1]@);
            }
            Some(self.headers[n - 1].duplicate())
        }
    }

    /// The height of the tip.
    pub fn best_height(&self) -> (r: usize)
        requires
            self.wf(),
            self@.len() > 0,
        ensures
            r == self@.len() - 1,
    {
        self.headers.len() - 1
    }
}

} // verus!
