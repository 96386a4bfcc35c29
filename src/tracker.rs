//! The tracker's state: the membership directory, the chunk index, the
//! whole-file checksums, and the `/list` view over them.

use vstd::prelude::*;

verus! {

/// Seconds between two heartbeats of a live peer.
pub const HEARTBEAT_PERIOD_SECS: u64 = 60;

/// A peer whose last heartbeat is older than this many seconds is evicted.
pub const LIVENESS_TIMEOUT_SECS: u64 = 180;

/// A peer known to the tracker.
pub struct PeerRecord {
    pub name: String,
    pub address: String,
    pub last_seen: u64,
}

pub ghost struct PeerView {
    pub name: Seq<char>,
    pub address: Seq<char>,
    pub last_seen: u64,
}

impl View for PeerRecord {
    type V = PeerView;

    open spec fn view(&self) -> PeerView {
        PeerView { name: self.name@, address: self.address@, last_seen: self.last_seen }
    }
}

/// The tracker's record that `peer`, reachable at `peer_address`, holds the
/// chunk `chunk_name` of `file_name`, whose bytes hash to `checksum`.
pub struct ChunkRef {
    pub peer: String,
    pub file_name: String,
    pub chunk_name: String,
    pub checksum: String,
    pub peer_address: String,
}

pub ghost struct RefView {
    pub peer: Seq<char>,
    pub file_name: Seq<char>,
    pub chunk_name: Seq<char>,
    pub checksum: Seq<char>,
    pub peer_address: Seq<char>,
}

impl View for ChunkRef {
    type V = RefView;

    open spec fn view(&self) -> RefView {
        RefView {
            peer: self.peer@,
            file_name: self.file_name@,
            chunk_name: self.chunk_name@,
            checksum: self.checksum@,
            peer_address: self.peer_address@,
        }
    }
}

impl ChunkRef {
    /// A field-by-field copy.
    pub fn copied(&self) -> (r: ChunkRef)
        ensures
            r@ == self@,
    {
        ChunkRef {
            peer: self.peer.clone(),
            file_name: self.file_name.clone(),
            chunk_name: self.chunk_name.clone(),
            checksum: self.checksum.clone(),
            peer_address: self.peer_address.clone(),
        }
    }
}

/// Views of a sequence of chunk references.
pub open spec fn ref_views(s: Seq<ChunkRef>) -> Seq<RefView> {
    s.map_values(|c: ChunkRef| c@)
}

/// Views of a sequence of peer records.
pub open spec fn peer_views(s: Seq<PeerRecord>) -> Seq<PeerView> {
    s.map_values(|p: PeerRecord| p@)
}

/// Views of a sequence of strings.
pub open spec fn string_views(s: Seq<String>) -> Seq<Seq<char>> {
    s.map_values(|x: String| x@)
}

/// Why the tracker turned a request down.
#[derive(PartialEq, Eq, Structural, Debug, Clone, Copy)]
pub enum TrackerError {
    /// `/register` with a name that another peer already holds.
    NameTaken,
    /// The request names a peer the tracker does not know.
    UnknownPeer,
    /// The request names a file the tracker holds no chunk of.
    UnknownFile,
    /// A whole-file checksum that disagrees with the one already published for the file.
    ChecksumConflict,
}

// ---------------------------------------------------------------- peers

pub open spec fn has_peer(peers: Seq<PeerView>, name: Seq<char>) -> bool {
    exists|i: int| 0 <= i < peers.len() && (#[trigger] peers[i]).name == name
}

pub open spec fn names_unique(peers: Seq<PeerView>) -> bool {
    forall|i: int, j: int|
        0 <= i < peers.len() && 0 <= j < peers.len() && i != j ==> (#[trigger] peers[i]).name
            != (#[trigger] peers[j]).name
}

pub open spec fn other_name(name: Seq<char>) -> spec_fn(PeerView) -> bool {
    |p: PeerView| p.name != name
}

/// A peer is stale at `now` when its last heartbeat is more than
/// `LIVENESS_TIMEOUT_SECS` seconds old.
pub open spec fn is_stale(p: PeerView, now: u64) -> bool {
    now as int - p.last_seen as int > LIVENESS_TIMEOUT_SECS as int
}

pub open spec fn live_at(now: u64) -> spec_fn(PeerView) -> bool {
    |p: PeerView| !is_stale(p, now)
}

/// Outcome of `/register` on a membership list: the new list, or the error.
pub open spec fn register_spec(
    peers: Seq<PeerView>,
    name: Seq<char>,
    address: Seq<char>,
    now: u64,
) -> (Seq<PeerView>, Result<(), TrackerError>) {
    if has_peer(peers, name) {
        (peers, Err(TrackerError::NameTaken))
    } else {
        (peers.push(PeerView { name, address, last_seen: now }), Ok(()))
    }
}

/// The tracker's membership list: at most one record per peer name.
pub struct PeerDirectory {
    peers: Vec<PeerRecord>,
}

impl View for PeerDirectory {
    type V = Seq<PeerView>;

    closed spec fn view(&self) -> Seq<PeerView> {
        peer_views(self.peers@)
    }
}

impl PeerDirectory {
    pub open spec fn wf(&self) -> bool {
        names_unique(self@)
    }

    /// An empty directory.
    pub fn new() -> (r: PeerDirectory)
        ensures
            r.wf(),
            r@ == Seq::<PeerView>::empty(),
    {
        let r = PeerDirectory { peers: Vec::new() };
        assert(r@ =~= Seq::<PeerView>::empty());
        r
    }

    /// Index of the record named `name`, if any.
    fn position(&self, name: &String) -> (r: Option<usize>)
        ensures
            r is None <==> !has_peer(self@, name@),
            r matches Some(i) ==> i < self@.len() && self@[i as int].name == name@,
    {
        let mut i: usize = 0;
        while i < self.peers.len()
            invariant
                i <= self@.len(),
                self@.len() == self.peers@.len(),
                forall|j: int| 0 <= j < i ==> (#[trigger] self@[j]).name != name@,
            decreases self.peers@.len() - i,
        {
            if self.peers[i].name == *name {
                assert(self@[i as int].name == name@);
                return Some(i);
            }
            i = i + 1;
        }
        None
    }

    /// Whether a peer named `name` is registered.
    pub fn contains(&self, name: &String) -> (r: bool)
        ensures
            r == has_peer(self@, name@),
    {
        self.position(name).is_some()
    }

    /// The address of the peer named `name`, if registered.
    pub fn address_of(&self, name: &String) -> (r: Option<String>)
        requires
            self.wf(),
        ensures
            r is None <==> !has_peer(self@, name@),
            r matches Some(a) ==> exists|i: int|
                0 <= i < self@.len() && (#[trigger] self@[i]).name == name@ && self@[i].address
                    == a@,
    {
        match self.position(name) {
            Some(i) => Some(self.peers[i].address.clone()),
            None => None,
        }
    }

    /// `/register`: adds a peer seen at `now`; fails when the name is in use.
    pub fn register_peer(&mut self, name: String, address: String, now: u64) -> (r: Result<
        (),
        TrackerError,
    >)
        requires
            old(self).wf(),
        ensures
            final(self).wf(),
            (final(self)@, r) == register_spec(old(self)@, name@, address@, now),
    {
        if self.contains(&name) {
            return Err(TrackerError::NameTaken);
        }
        let ghost before = self@;
        self.peers.push(PeerRecord { name, address, last_seen: now });
        assert(self@ =~= before.push(PeerView { name: name@, address: address@, last_seen: now }));
        Ok(())
    }

    /// `/heartbeat`: refreshes the last-seen time of the peer named `name`.
    pub fn heartbeat(&mut self, name: &String, now: u64) -> (r: Result<(), TrackerError>)
        requires
            old(self).wf(),
        ensures
            final(self).wf(),
            r is Ok <==> has_peer(old(self)@, name@),
            r matches Err(e) ==> e == TrackerError::UnknownPeer,
            final(self)@.len() == old(self)@.len(),
            forall|i: int|
                0 <= i < old(self)@.len() ==> (#[trigger] final(self)@[i]) == if old(self)@[i].name
                    == name@ {
                    PeerView { last_seen: now, ..old(self)@[i] }
                } else {
                    old(self)@[i]
                },
    {
        match self.position(name) {
            None => {
                assert(self@ =~= old(self)@);
                Err(TrackerError::UnknownPeer)
            },
            Some(i) => {
                let ghost before = self@;
                self.peers[i].last_seen = now;
                assert forall|k: int| 0 <= k < before.len() implies (#[trigger] self@[k]) == if before[k].name
                    == name@ {
                    PeerView { last_seen: now, ..before[k] }
                } else {
                    before[k]
                } by {
                    if k != i {
                        assert(before[k].name != before[i as int].name);
                    }
                }
                Ok(())
            },
        }
    }

    /// `/unregister_peer`: removes the record of the peer named `name`.
    /// Chunk references that name the peer are left to the chunk index.
    pub fn unregister_peer(&mut self, name: &String) -> (r: Result<(), TrackerError>)
        requires
            old(self).wf(),
        ensures
            final(self).wf(),
            r is Ok <==> has_peer(old(self)@, name@),
            r matches Err(e) ==> e == TrackerError::UnknownPeer,
            final(self)@ == old(self)@.filter(other_name(name@)),
    {
        let found = self.contains(name);
        let ghost before = self@;
        let mut kept: Vec<PeerRecord> = Vec::new();
        let mut old_peers: Vec<PeerRecord> = Vec::new();
        std::mem::swap(&mut old_peers, &mut self.peers);
        let mut i: usize = 0;
        while i < old_peers.len()
            invariant
                i <= old_peers@.len(),
                peer_views(old_peers@) == before,
                peer_views(kept@) == before.take(i as int).filter(other_name(name@)),
            decreases old_peers@.len() - i,
        {
            proof {
                reveal(Seq::filter);
                assert(before.take(i + 1).drop_last() =~= before.take(i as int));
            }
            if old_peers[i].name != *name {
                let p = PeerRecord {
                    name: old_peers[i].name.clone(),
                    address: old_peers[i].address.clone(),
                    last_seen: old_peers[i].last_seen,
                };
                kept.push(p);
                assert(peer_views(kept@) =~= before.take(i + 1).filter(other_name(name@)));
            } else {
                assert(peer_views(kept@) =~= before.take(i + 1).filter(other_name(name@)));
            }
            i = i + 1;
        }
        assert(before.take(i as int) =~= before);
        self.peers = kept;
        proof {
            lemma_filter_keeps_unique(before, other_name(name@));
        }
        if found {
            Ok(())
        } else {
            Err(TrackerError::UnknownPeer)
        }
    }

    /// Liveness sweep: evicts every peer whose last heartbeat is more than
    /// `LIVENESS_TIMEOUT_SECS` seconds before `now`.
    pub fn expire_stale(&mut self, now: u64)
        requires
            old(self).wf(),
        ensures
            final(self).wf(),
            final(self)@ == old(self)@.filter(live_at(now)),
    {
        let ghost before = self@;
        let mut kept: Vec<PeerRecord> = Vec::new();
        let mut old_peers: Vec<PeerRecord> = Vec::new();
        std::mem::swap(&mut old_peers, &mut self.peers);
        let mut i: usize = 0;
        while i < old_peers.len()
            invariant
                i <= old_peers@.len(),
                peer_views(old_peers@) == before,
                peer_views(kept@) == before.take(i as int).filter(live_at(now)),
            decreases old_peers@.len() - i,
        {
            proof {
                reveal(Seq::filter);
                assert(before.take(i + 1).drop_last() =~= before.take(i as int));
            }
            let seen = old_peers[i].last_seen;
            let stale = now > seen && now - seen > LIVENESS_TIMEOUT_SECS;
            if !stale {
                let p = PeerRecord {
                    name: old_peers[i].name.clone(),
                    address: old_peers[i].address.clone(),
                    last_seen: seen,
                };
                kept.push(p);
            }
            assert(peer_views(kept@) =~= before.take(i + 1).filter(live_at(now)));
            i = i + 1;
        }
        assert(before.take(i as int) =~= before);
        self.peers = kept;
        proof {
            lemma_filter_keeps_unique(before, live_at(now));
        }
    }
}

proof fn lemma_filter_keeps_unique(s: Seq<PeerView>, pred: spec_fn(PeerView) -> bool)
    requires
        names_unique(s),
    ensures
        names_unique(s.filter(pred)),
    decreases s.len(),
{
    reveal(Seq::filter);
    if s.len() > 0 {
        lemma_filter_keeps_unique(s.drop_last(), pred);
        let sub = s.drop_last().filter(pred);
        if pred(s.last()) {
            assert forall|i: int| 0 <= i < sub.len() implies (#[trigger] sub[i]).name != s.last().name by {
                s.drop_last().lemma_filter_contains_rev(pred, sub[i]);
                let k = choose|k: int| 0 <= k < s.drop_last().len() && s.drop_last()[k] == sub[i];
                assert(s[k] == sub[i]);
            }
            let t = sub.push(s.last());
            assert forall|i: int, j: int|
                0 <= i < t.len() && 0 <= j < t.len() && i != j implies (#[trigger] t[i]).name != (
            #[trigger] t[j]).name by {
                if i < sub.len() && j < sub.len() {
                } else if i < sub.len() {
                    assert(t[i] == sub[i]);
                } else {
                    assert(t[j] == sub[j]);
                }
            }
        }
    }
}

/// `/register` twice with one name: the first call succeeds, the second is
/// refused with `NameTaken` and changes nothing.
pub proof fn lemma_name_unique(
    peers: Seq<PeerView>,
    name: Seq<char>,
    first: Seq<char>,
    second: Seq<char>,
    t1: u64,
    t2: u64,
)
    requires
        !has_peer(peers, name),
    ensures
        register_spec(peers, name, first, t1).1 == Ok::<(), TrackerError>(()),
        register_spec(register_spec(peers, name, first, t1).0, name, second, t2).1 == Err::<
            (),
            TrackerError,
        >(TrackerError::NameTaken),
        register_spec(register_spec(peers, name, first, t1).0, name, second, t2).0
            == register_spec(peers, name, first, t1).0,
{
    let after = register_spec(peers, name, first, t1).0;
    assert(after[peers.len() as int].name == name);
}

// ---------------------------------------------------------------- chunks

/// Two references stand for the same registration: one peer, one chunk of one file.
pub open spec fn same_registration(a: RefView, b: RefView) -> bool {
    a.file_name == b.file_name && a.peer == b.peer && a.chunk_name == b.chunk_name
}

pub open spec fn has_registration(chunks: Seq<RefView>, c: RefView) -> bool {
    exists|i: int| 0 <= i < chunks.len() && same_registration(#[trigger] chunks[i], c)
}

pub open spec fn registrations_unique(chunks: Seq<RefView>) -> bool {
    forall|i: int, j: int|
        0 <= i < chunks.len() && 0 <= j < chunks.len() && i != j ==> !same_registration(
            #[trigger] chunks[i],
            #[trigger] chunks[j],
        )
}

/// The index after `/register_chunk` of `c`: a registration already present is kept as is.
pub open spec fn register_chunk_spec(chunks: Seq<RefView>, c: RefView) -> Seq<RefView> {
    if has_registration(chunks, c) {
        chunks
    } else {
        chunks.push(c)
    }
}

/// The index after `n` identical `/register_chunk` calls.
pub open spec fn register_repeated(chunks: Seq<RefView>, c: RefView, n: nat) -> Seq<RefView>
    decreases n,
{
    if n == 0 {
        chunks
    } else {
        register_chunk_spec(register_repeated(chunks, c, (n - 1) as nat), c)
    }
}

pub open spec fn of_file(file: Seq<char>) -> spec_fn(RefView) -> bool {
    |c: RefView| c.file_name == file
}

pub open spec fn owned_by(peer: Seq<char>) -> spec_fn(RefView) -> bool {
    |c: RefView| c.peer == peer
}

pub open spec fn not_peer_file(peer: Seq<char>, file: Seq<char>) -> spec_fn(RefView) -> bool {
    |c: RefView| !(c.peer == peer && c.file_name == file)
}

pub open spec fn not_peer_chunk(peer: Seq<char>, chunk: Seq<char>) -> spec_fn(RefView) -> bool {
    |c: RefView| !(c.peer == peer && c.chunk_name == chunk)
}

pub open spec fn has_file(chunks: Seq<RefView>, file: Seq<char>) -> bool {
    exists|i: int| 0 <= i < chunks.len() && (#[trigger] chunks[i]).file_name == file
}

/// `files` lists, once each, the files of which `peer` holds at least one chunk.
pub open spec fn lists_files_of(chunks: Seq<RefView>, peer: Seq<char>, files: Seq<Seq<char>>) -> bool {
    &&& files.no_duplicates()
    &&& forall|f: Seq<char>|
        files.contains(f) <==> exists|i: int|
            0 <= i < chunks.len() && (#[trigger] chunks[i]).peer == peer && chunks[i].file_name == f
}

/// Whether `v` holds a string equal to `s`.
pub fn contains_string(v: &Vec<String>, s: &String) -> (r: bool)
    ensures
        r == string_views(v@).contains(s@),
{
    let mut i: usize = 0;
    while i < v.len()
        invariant
            i <= v@.len(),
            forall|j: int| 0 <= j < i ==> (#[trigger] v@[j])@ != s@,
        decreases v@.len() - i,
    {
        if v[i] == *s {
            assert(string_views(v@)[i as int] == s@);
            return true;
        }
        i = i + 1;
    }
    assert(!string_views(v@).contains(s@)) by {
        if string_views(v@).contains(s@) {
            let k = choose|k: int| 0 <= k < string_views(v@).len() && string_views(v@)[k] == s@;
            assert(v@[k]@ == s@);
        }
    }
    false
}

/// The tracker's content index: every chunk registration, in arrival order.
pub struct ChunkIndex {
    chunks: Vec<ChunkRef>,
}

impl View for ChunkIndex {
    type V = Seq<RefView>;

    closed spec fn view(&self) -> Seq<RefView> {
        ref_views(self.chunks@)
    }
}

proof fn lemma_filter_keeps_registrations_unique(s: Seq<RefView>, pred: spec_fn(RefView) -> bool)
    requires
        registrations_unique(s),
    ensures
        registrations_unique(s.filter(pred)),
    decreases s.len(),
{
    reveal(Seq::filter);
    if s.len() > 0 {
        lemma_filter_keeps_registrations_unique(s.drop_last(), pred);
        let sub = s.drop_last().filter(pred);
        if pred(s.last()) {
            assert forall|i: int| 0 <= i < sub.len() implies !same_registration(
                #[trigger] sub[i],
                s.last(),
            ) by {
                s.drop_last().lemma_filter_contains_rev(pred, sub[i]);
                let k = choose|k: int| 0 <= k < s.drop_last().len() && s.drop_last()[k] == sub[i];
                assert(s[k] == sub[i]);
            }
            let t = sub.push(s.last());
            assert forall|i: int, j: int|
                0 <= i < t.len() && 0 <= j < t.len() && i != j implies !same_registration(
                #[trigger] t[i],
                #[trigger] t[j],
            ) by {
                if i < sub.len() && j < sub.len() {
                } else if i < sub.len() {
                    assert(t[i] == sub[i]);
                } else {
                    assert(t[j] == sub[j]);
                }
            }
        }
    }
}

impl ChunkIndex {
    pub open spec fn wf(&self) -> bool {
        registrations_unique(self@)
    }

    /// An empty index.
    pub fn new() -> (r: ChunkIndex)
        ensures
            r.wf(),
            r@ == Seq::<RefView>::empty(),
    {
        let r = ChunkIndex { chunks: Vec::new() };
        assert(r@ =~= Seq::<RefView>::empty());
        r
    }

    /// `/register_chunk`: records `c` unless the same peer already registered
    /// that chunk of that file. Returns whether the index changed.
    pub fn register_chunk(&mut self, c: ChunkRef) -> (r: bool)
        requires
            old(self).wf(),
        ensures
            final(self).wf(),
            final(self)@ == register_chunk_spec(old(self)@, c@),
            r == !has_registration(old(self)@, c@),
    {
        let mut i: usize = 0;
        while i < self.chunks.len()
            invariant
                i <= self@.len(),
                self@ == old(self)@,
                self.wf(),
                self@.len() == self.chunks@.len(),
                forall|j: int| 0 <= j < i ==> !same_registration(#[trigger] self@[j], c@),
            decreases self.chunks@.len() - i,
        {
            let e = &self.chunks[i];
            if e.file_name == c.file_name && e.peer == c.peer && e.chunk_name == c.chunk_name {
                assert(same_registration(self@[i as int], c@));
                return false;
            }
            i = i + 1;
        }
        let ghost before = self@;
        self.chunks.push(c);
        assert(self@ =~= before.push(c@));
        assert(self.wf()) by {
            assert forall|a: int, b: int|
                0 <= a < self@.len() && 0 <= b < self@.len() && a != b implies !same_registration(
                #[trigger] self@[a],
                #[trigger] self@[b],
            ) by {
                if a < before.len() && b < before.len() {
                    assert(self@[a] == before[a] && self@[b] == before[b]);
                } else if a < before.len() {
                    assert(self@[a] == before[a]);
                } else {
                    assert(self@[b] == before[b]);
                }
            }
        }
        true
    }

    /// Whether the index holds any chunk of `file`.
    pub fn holds_file(&self, file: &String) -> (r: bool)
        ensures
            r == has_file(self@, file@),
    {
        let mut i: usize = 0;
        while i < self.chunks.len()
            invariant
                i <= self@.len(),
                self@.len() == self.chunks@.len(),
                forall|j: int| 0 <= j < i ==> (#[trigger] self@[j]).file_name != file@,
            decreases self.chunks@.len() - i,
        {
            if self.chunks[i].file_name == *file {
                assert(self@[i as int].file_name == file@);
                return true;
            }
            i = i + 1;
        }
        false
    }

    /// `/get_file_chunks`: every registration for `file`, in arrival order.
    pub fn get_file_chunks(&self, file: &String) -> (r: Vec<ChunkRef>)
        ensures
            ref_views(r@) == self@.filter(of_file(file@)),
    {
        let mut out: Vec<ChunkRef> = Vec::new();
        let mut i: usize = 0;
        while i < self.chunks.len()
            invariant
                i <= self@.len(),
                self@.len() == self.chunks@.len(),
                ref_views(out@) == self@.take(i as int).filter(of_file(file@)),
            decreases self.chunks@.len() - i,
        {
            proof {
                reveal(Seq::filter);
                assert(self@.take(i + 1).drop_last() =~= self@.take(i as int));
            }
            if self.chunks[i].file_name == *file {
                out.push(self.chunks[i].copied());
            }
            assert(ref_views(out@) =~= self@.take(i + 1).filter(of_file(file@)));
            i = i + 1;
        }
        assert(self@.take(i as int) =~= self@);
        out
    }

    /// Names of the chunks that `peer` holds, in arrival order.
    pub fn peer_chunk_names(&self, peer: &String) -> (r: Vec<String>)
        ensures
            string_views(r@) == self@.filter(owned_by(peer@)).map_values(|c: RefView| c.chunk_name),
    {
        let mut out: Vec<String> = Vec::new();
        let mut i: usize = 0;
        while i < self.chunks.len()
            invariant
                i <= self@.len(),
                self@.len() == self.chunks@.len(),
                string_views(out@) == self@.take(i as int).filter(owned_by(peer@)).map_values(
                    |c: RefView| c.chunk_name,
                ),
            decreases self.chunks@.len() - i,
        {
            proof {
                reveal(Seq::filter);
                assert(self@.take(i + 1).drop_last() =~= self@.take(i as int));
            }
            let ghost prev = self@.take(i as int).filter(owned_by(peer@));
            let ghost prev_out = out@;
            if self.chunks[i].peer == *peer {
                out.push(self.chunks[i].chunk_name.clone());
                assert(self@.take(i + 1).filter(owned_by(peer@)) == prev.push(self@[i as int]));
                assert(string_views(out@) =~= string_views(prev_out).push(self@[i as int].chunk_name));
                assert(prev.push(self@[i as int]).map_values(|c: RefView| c.chunk_name) =~= prev.map_values(
                    |c: RefView| c.chunk_name,
                ).push(self@[i as int].chunk_name));
            } else {
                assert(self@.take(i + 1).filter(owned_by(peer@)) == prev);
            }
            i = i + 1;
        }
        assert(self@.take(i as int) =~= self@);
        out
    }

    /// The files of which `peer` holds at least one chunk, each once.
    pub fn files_of(&self, peer: &String) -> (r: Vec<String>)
        ensures
            lists_files_of(self@, peer@, string_views(r@)),
    {
        let mut out: Vec<String> = Vec::new();
        let mut i: usize = 0;
        while i < self.chunks.len()
            invariant
                i <= self@.len(),
                self@.len() == self.chunks@.len(),
                lists_files_of(self@.take(i as int), peer@, string_views(out@)),
            decreases self.chunks@.len() - i,
        {
            let ghost prev = string_views(out@);
            let ghost taken = self@.take(i + 1);
            assert(forall|j: int| 0 <= j < i ==> self@.take(i as int)[j] == #[trigger] taken[j]);
            assert(taken[i as int] == self.chunks@[i as int]@);
            if self.chunks[i].peer == *peer && !contains_string(&out, &self.chunks[i].file_name) {
                out.push(self.chunks[i].file_name.clone());
                assert(string_views(out@) =~= prev.push(taken[i as int].file_name));
                assert forall|f: Seq<char>| string_views(out@).contains(f) <==> exists|j: int|
                    0 <= j < taken.len() && (#[trigger] taken[j]).peer == peer@ && taken[j].file_name == f by {
                    if string_views(out@).contains(f) && f != taken[i as int].file_name {
                        let k = choose|k: int| 0 <= k < string_views(out@).len() && string_views(out@)[k] == f;
                        assert(prev[k] == f);
                        assert(prev.contains(f));
                        let j = choose|j: int| 0 <= j < i && (#[trigger] self@.take(i as int)[j]).peer == peer@ && self@.take(i as int)[j].file_name == f;
                        assert(taken[j] == self@.take(i as int)[j]);
                    }
                    if f == taken[i as int].file_name {
                        assert(string_views(out@)[prev.len() as int] == f);
                        assert(taken[i as int].peer == peer@);
                    }
                    if exists|j: int| 0 <= j < taken.len() && (#[trigger] taken[j]).peer == peer@ && taken[j].file_name == f {
                        let j = choose|j: int| 0 <= j < taken.len() && (#[trigger] taken[j]).peer == peer@ && taken[j].file_name == f;
                        if j < i {
                            assert(self@.take(i as int)[j] == taken[j]);
                            assert(prev.contains(f));
                            let k = choose|k: int| 0 <= k < prev.len() && prev[k] == f;
                            assert(string_views(out@)[k] == f);
                        }
                    }
                }
            } else {
                assert(string_views(out@) == prev);
                assert(taken[i as int] == self.chunks@[i as int]@);
                assert forall|f: Seq<char>| string_views(out@).contains(f) <==> exists|j: int|
                    0 <= j < taken.len() && (#[trigger] taken[j]).peer == peer@ && taken[j].file_name == f by {
                    if exists|j: int| 0 <= j < taken.len() && (#[trigger] taken[j]).peer == peer@ && taken[j].file_name == f {
                        let j = choose|j: int| 0 <= j < taken.len() && (#[trigger] taken[j]).peer == peer@ && taken[j].file_name == f;
                        if j < i {
                            assert(self@.take(i as int)[j] == taken[j]);
                        }
                    }
                    if string_views(out@).contains(f) {
                        assert(prev.contains(f));
                        let j = choose|j: int| 0 <= j < i && (#[trigger] self@.take(i as int)[j]).peer == peer@ && self@.take(i as int)[j].file_name == f;
                        assert(taken[j] == self@.take(i as int)[j]);
                    }
                }
            }
            i = i + 1;
        }
        assert(self@.take(i as int) =~= self@);
        out
    }

    /// `/unregister_file`: drops every registration of `peer` for `file`.
    /// Fails when the index holds no chunk of `file` at all.
    pub fn unregister_file(&mut self, peer: &String, file: &String) -> (r: Result<(), TrackerError>)
        requires
            old(self).wf(),
        ensures
            final(self).wf(),
            r is Ok <==> has_file(old(self)@, file@),
            r matches Err(e) ==> e == TrackerError::UnknownFile,
            r is Ok ==> final(self)@ == old(self)@.filter(not_peer_file(peer@, file@)),
            r is Err ==> final(self)@ == old(self)@,
    {
        let ghost before = self@;
        let mut found = false;
        let mut kept: Vec<ChunkRef> = Vec::new();
        let mut i: usize = 0;
        while i < self.chunks.len()
            invariant
                i <= self@.len(),
                self@ == before,
                self@.len() == self.chunks@.len(),
                ref_views(kept@) == before.take(i as int).filter(not_peer_file(peer@, file@)),
                found <==> has_file(before.take(i as int), file@),
            decreases self.chunks@.len() - i,
        {
            proof {
                reveal(Seq::filter);
                assert(before.take(i + 1).drop_last() =~= before.take(i as int));
            }
            let ghost taken = before.take(i + 1);
            let is_file = self.chunks[i].file_name == *file;
            if !(self.chunks[i].peer == *peer && is_file) {
                kept.push(self.chunks[i].copied());
            }
            assert(ref_views(kept@) =~= before.take(i + 1).filter(not_peer_file(peer@, file@)));
            proof {
                if is_file {
                    assert(taken[i as int].file_name == file@);
                }
                if found {
                    let k = choose|k: int| 0 <= k < i && (#[trigger] before.take(i as int)[k]).file_name == file@;
                    assert(taken[k] == before.take(i as int)[k]);
                }
                if has_file(taken, file@) && !is_file {
                    let k = choose|k: int| 0 <= k < taken.len() && (#[trigger] taken[k]).file_name == file@;
                    assert(before.take(i as int)[k] == taken[k]);
                }
            }
            found = found || is_file;
            i = i + 1;
        }
        assert(before.take(i as int) =~= before);
        if !found {
            return Err(TrackerError::UnknownFile);
        }
        self.chunks = kept;
        proof {
            lemma_filter_keeps_registrations_unique(before, not_peer_file(peer@, file@));
        }
        Ok(())
    }

    /// `/unregister_chunk`: drops the registration of `chunk` by `peer`, in whatever file.
    pub fn unregister_chunk(&mut self, peer: &String, chunk: &String)
        requires
            old(self).wf(),
        ensures
            final(self).wf(),
            final(self)@ == old(self)@.filter(not_peer_chunk(peer@, chunk@)),
    {
        let ghost before = self@;
        let mut kept: Vec<ChunkRef> = Vec::new();
        let mut i: usize = 0;
        while i < self.chunks.len()
            invariant
                i <= self@.len(),
                self@ == before,
                self@.len() == self.chunks@.len(),
                ref_views(kept@) == before.take(i as int).filter(not_peer_chunk(peer@, chunk@)),
            decreases self.chunks@.len() - i,
        {
            proof {
                reveal(Seq::filter);
                assert(before.take(i + 1).drop_last() =~= before.take(i as int));
            }
            if !(self.chunks[i].peer == *peer && self.chunks[i].chunk_name == *chunk) {
                kept.push(self.chunks[i].copied());
            }
            assert(ref_views(kept@) =~= before.take(i + 1).filter(not_peer_chunk(peer@, chunk@)));
            i = i + 1;
        }
        assert(before.take(i as int) =~= before);
        self.chunks = kept;
        proof {
            lemma_filter_keeps_registrations_unique(before, not_peer_chunk(peer@, chunk@));
        }
    }
}

/// Registering the same chunk of the same peer `n >= 1` times leaves the index
/// exactly as one registration does.
pub proof fn lemma_register_chunk_idempotent(chunks: Seq<RefView>, c: RefView, n: nat)
    requires
        n >= 1,
    ensures
        register_repeated(chunks, c, n) == register_chunk_spec(chunks, c),
    decreases n,
{
    assert(register_repeated(chunks, c, 0) == chunks);
    if n > 1 {
        lemma_register_chunk_idempotent(chunks, c, (n - 1) as nat);
        assert(register_repeated(chunks, c, n) == register_chunk_spec(
            register_repeated(chunks, c, (n - 1) as nat),
            c,
        ));
        let once = register_chunk_spec(chunks, c);
        if !has_registration(chunks, c) {
            assert(same_registration(once[chunks.len() as int], c));
        }
    }
}

// ---------------------------------------------------------------- whole-file checksums

/// The checksum of a whole file, published by the peer that shared it.
pub struct FileDigest {
    pub file_name: String,
    pub checksum: String,
}

pub ghost struct DigestView {
    pub file_name: Seq<char>,
    pub checksum: Seq<char>,
}

impl View for FileDigest {
    type V = DigestView;

    open spec fn view(&self) -> DigestView {
        DigestView { file_name: self.file_name@, checksum: self.checksum@ }
    }
}

pub open spec fn digest_views(s: Seq<FileDigest>) -> Seq<DigestView> {
    s.map_values(|d: FileDigest| d@)
}

pub open spec fn has_digest(entries: Seq<DigestView>, file: Seq<char>) -> bool {
    exists|i: int| 0 <= i < entries.len() && (#[trigger] entries[i]).file_name == file
}

/// The entry for `file` records exactly `checksum`.
pub open spec fn digest_is(entries: Seq<DigestView>, file: Seq<char>, checksum: Seq<char>) -> bool {
    exists|i: int|
        0 <= i < entries.len() && (#[trigger] entries[i]).file_name == file && entries[i].checksum
            == checksum
}

pub open spec fn files_unique(entries: Seq<DigestView>) -> bool {
    forall|i: int, j: int|
        0 <= i < entries.len() && 0 <= j < entries.len() && i != j ==> (#[trigger] entries[i]).file_name
            != (#[trigger] entries[j]).file_name
}

pub open spec fn other_file(file: Seq<char>) -> spec_fn(DigestView) -> bool {
    |d: DigestView| d.file_name != file
}

/// Whole-file checksums, at most one per file name.
pub struct FileDigests {
    entries: Vec<FileDigest>,
}

impl View for FileDigests {
    type V = Seq<DigestView>;

    closed spec fn view(&self) -> Seq<DigestView> {
        digest_views(self.entries@)
    }
}

impl FileDigests {
    pub open spec fn wf(&self) -> bool {
        files_unique(self@)
    }

    /// No checksum published yet.
    pub fn new() -> (r: FileDigests)
        ensures
            r.wf(),
            r@ == Seq::<DigestView>::empty(),
    {
        let r = FileDigests { entries: Vec::new() };
        assert(r@ =~= Seq::<DigestView>::empty());
        r
    }

    fn position(&self, file: &String) -> (r: Option<usize>)
        ensures
            r is None <==> !has_digest(self@, file@),
            r matches Some(i) ==> i < self@.len() && self@[i as int].file_name == file@,
    {
        let mut i: usize = 0;
        while i < self.entries.len()
            invariant
                i <= self@.len(),
                self@.len() == self.entries@.len(),
                forall|j: int| 0 <= j < i ==> (#[trigger] self@[j]).file_name != file@,
            decreases self.entries@.len() - i,
        {
            if self.entries[i].file_name == *file {
                assert(self@[i as int].file_name == file@);
                return Some(i);
            }
            i = i + 1;
        }
        None
    }

    /// The checksum published for `file`, if any.
    pub fn lookup(&self, file: &String) -> (r: Option<String>)
        requires
            self.wf(),
        ensures
            r is None <==> !has_digest(self@, file@),
            r matches Some(c) ==> digest_is(self@, file@, c@),
    {
        match self.position(file) {
            Some(i) => {
                let c = self.entries[i].checksum.clone();
                assert(self@[i as int].checksum == c@);
                Some(c)
            },
            None => None,
        }
    }

    /// Publishes the whole-file checksum of `file`. Publishing the checksum
    /// already recorded changes nothing; a different one is refused.
    pub fn publish(&mut self, file: String, checksum: String) -> (r: Result<(), TrackerError>)
        requires
            old(self).wf(),
        ensures
            final(self).wf(),
            !has_digest(old(self)@, file@) ==> r is Ok && final(self)@ == old(self)@.push(
                DigestView { file_name: file@, checksum: checksum@ },
            ),
            has_digest(old(self)@, file@) ==> final(self)@ == old(self)@ && (r is Ok <==> digest_is(
                old(self)@,
                file@,
                checksum@,
            )),
            r matches Err(e) ==> e == TrackerError::ChecksumConflict,
    {
        match self.position(&file) {
            Some(i) => {
                if self.entries[i].checksum == checksum {
                    assert(self@[i as int].checksum == checksum@);
                    Ok(())
                } else {
                    assert(!digest_is(self@, file@, checksum@)) by {
                        if digest_is(self@, file@, checksum@) {
                            let k = choose|k: int|
                                0 <= k < self@.len() && (#[trigger] self@[k]).file_name == file@
                                    && self@[k].checksum == checksum@;
                            assert(k == i);
                        }
                    }
                    Err(TrackerError::ChecksumConflict)
                }
            },
            None => {
                let ghost before = self@;
                self.entries.push(FileDigest { file_name: file, checksum });
                assert(self@ =~= before.push(DigestView { file_name: file@, checksum: checksum@ }));
                assert(self.wf()) by {
                    assert forall|a: int, b: int|
                        0 <= a < self@.len() && 0 <= b < self@.len() && a != b implies (#[trigger] self@[a]).file_name
                            != (#[trigger] self@[b]).file_name by {
                        if a < before.len() && b < before.len() {
                            assert(self@[a] == before[a] && self@[b] == before[b]);
                        } else if a < before.len() {
                            assert(self@[a] == before[a]);
                        } else {
                            assert(self@[b] == before[b]);
                        }
                    }
                }
                Ok(())
            },
        }
    }

    /// Drops the checksum of `file` once the index holds no chunk of it.
    pub fn retire_if_unheld(&mut self, file: &String, chunks: &ChunkIndex)
        requires
            old(self).wf(),
        ensures
            final(self).wf(),
            has_file(chunks@, file@) ==> final(self)@ == old(self)@,
            !has_file(chunks@, file@) ==> final(self)@ == old(self)@.filter(other_file(file@)),
    {
        if chunks.holds_file(file) {
            return;
        }
        let ghost before = self@;
        let mut kept: Vec<FileDigest> = Vec::new();
        let mut i: usize = 0;
        while i < self.entries.len()
            invariant
                i <= self@.len(),
                self@ == before,
                self@.len() == self.entries@.len(),
                digest_views(kept@) == before.take(i as int).filter(other_file(file@)),
            decreases self.entries@.len() - i,
        {
            proof {
                reveal(Seq::filter);
                assert(before.take(i + 1).drop_last() =~= before.take(i as int));
            }
            if self.entries[i].file_name != *file {
                let d = FileDigest {
                    file_name: self.entries[i].file_name.clone(),
                    checksum: self.entries[i].checksum.clone(),
                };
                kept.push(d);
            }
            assert(digest_views(kept@) =~= before.take(i + 1).filter(other_file(file@)));
            i = i + 1;
        }
        assert(before.take(i as int) =~= before);
        self.entries = kept;
        proof {
            lemma_filter_keeps_files_unique(before, other_file(file@));
        }
    }
}

proof fn lemma_filter_keeps_files_unique(s: Seq<DigestView>, pred: spec_fn(DigestView) -> bool)
    requires
        files_unique(s),
    ensures
        files_unique(s.filter(pred)),
    decreases s.len(),
{
    reveal(Seq::filter);
    if s.len() > 0 {
        lemma_filter_keeps_files_unique(s.drop_last(), pred);
        let sub = s.drop_last().filter(pred);
        if pred(s.last()) {
            assert forall|i: int| 0 <= i < sub.len() implies (#[trigger] sub[i]).file_name != s.last().file_name by {
                s.drop_last().lemma_filter_contains_rev(pred, sub[i]);
                let k = choose|k: int| 0 <= k < s.drop_last().len() && s.drop_last()[k] == sub[i];
                assert(s[k] == sub[i]);
            }
            let t = sub.push(s.last());
            assert forall|i: int, j: int|
                0 <= i < t.len() && 0 <= j < t.len() && i != j implies (#[trigger] t[i]).file_name != (
            #[trigger] t[j]).file_name by {
                if i < sub.len() && j < sub.len() {
                } else if i < sub.len() {
                    assert(t[i] == sub[i]);
                } else {
                    assert(t[j] == sub[j]);
                }
            }
        }
    }
}

/// What `/list` reports of one peer.
pub struct PeerInfo {
    pub name: String,
    pub address: String,
    pub files: Vec<String>,
}

/// `/list`: for each registered peer, in directory order, its name, its
/// address and the files of which it holds at least one chunk.
pub fn list_peers(peers: &PeerDirectory, chunks: &ChunkIndex) -> (r: Vec<PeerInfo>)
    ensures
        r@.len() == peers@.len(),
        forall|i: int|
            0 <= i < r@.len() ==> {
                &&& (#[trigger] r@[i]).name@ == peers@[i].name
                &&& r@[i].address@ == peers@[i].address
                &&& lists_files_of(chunks@, peers@[i].name, string_views(r@[i].files@))
            },
{
    let mut out: Vec<PeerInfo> = Vec::new();
    let mut i: usize = 0;
    while i < peers.peers.len()
        invariant
            i <= peers@.len(),
            peers@.len() == peers.peers@.len(),
            out@.len() == i,
            forall|k: int|
                0 <= k < i ==> {
                    &&& (#[trigger] out@[k]).name@ == peers@[k].name
                    &&& out@[k].address@ == peers@[k].address
                    &&& lists_files_of(chunks@, peers@[k].name, string_views(out@[k].files@))
                },
        decreases peers.peers@.len() - i,
    {
        let p = &peers.peers[i];
        let files = chunks.files_of(&p.name);
        out.push(PeerInfo { name: p.name.clone(), address: p.address.clone(), files });
        i = i + 1;
    }
    out
}

} // verus!
