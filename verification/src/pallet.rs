//! The keyed store of posts and the two calls that write to it.
//!
//! The store owns a map from post id to stored entry, the counter that hands
//! out ids, and the log of notifications. Every operation either completes or
//! leaves the store exactly as it found it.

use crate::error::Error;
use crate::v1;
use crate::v2;
use crate::v2::{Content, ContentView, Post, PostView};
use vstd::prelude::*;

verus! {

/// The identity of a signer: a 64-bit account number, stored as eight
/// little-endian bytes.
pub type AccountId = u64;

/// The declared cost of `post`: fixed, whatever the size of the input.
pub const POST_WEIGHT: u64 = 0;

/// The declared cost of `post_encrypted`: fixed, whatever the size of the input.
pub const POST_ENCRYPTED_WEIGHT: u64 = 0;

/// Who is making a call, as the host established it.
#[derive(Clone, Copy, Debug, PartialEq, Eq)]
pub enum Origin {
    Root,
    Signed(AccountId),
    Unsigned,
}

impl Origin {
    /// The account that signed, if one did.
    pub open spec fn signer(self) -> Option<AccountId> {
        match self {
            Origin::Signed(who) => Some(who),
            _ => None,
        }
    }
}

/// A notification of a completed change.
#[derive(Clone, Copy, Debug, PartialEq, Eq)]
pub enum Event {
    /// A post was stored under the id, written by the account.
    RecordStored(u32, AccountId),
}

impl Event {
    /// The id that the notification speaks of.
    pub open spec fn id(self) -> u32 {
        match self {
            Event::RecordStored(id, _) => id,
        }
    }
}

/// The layout in which an entry's bytes are written.
#[derive(Clone, Copy, Debug, PartialEq, Eq)]
pub enum Version {
    V1,
    V2,
}

/// What the store keeps under an id: encoded bytes and the layout they are in.
#[derive(Clone, Debug, PartialEq, Eq)]
pub struct Entry {
    pub version: Version,
    pub bytes: Vec<u8>,
}

/// The mathematical value of an `Entry`.
pub struct EntryView {
    pub version: Version,
    pub bytes: Seq<u8>,
}

impl View for Entry {
    type V = EntryView;

    open spec fn view(&self) -> EntryView {
        EntryView { version: self.version, bytes: self.bytes@ }
    }
}

impl EntryView {
    /// An entry in the current layout that holds the post.
    pub open spec fn current(post: PostView) -> EntryView {
        EntryView { version: Version::V2, bytes: v2::encoding(post) }
    }

    /// An entry in the legacy layout that holds the post.
    pub open spec fn legacy(post: v1::PostView) -> EntryView {
        EntryView { version: Version::V1, bytes: v1::encoding(post) }
    }

    /// The post that the entry yields to a reader. A legacy entry is read
    /// through the upgrade.
    pub open spec fn read(self) -> Option<PostView> {
        match self.version {
            Version::V1 => match v1::decoding(self.bytes) {
                Some(legacy) => Some(v2::upgraded(legacy)),
                None => None,
            },
            Version::V2 => v2::decoding(self.bytes),
        }
    }

    /// A legacy entry whose bytes do not decode: the sweep cannot rewrite it.
    pub open spec fn unreadable_legacy(self) -> bool {
        self.version == Version::V1 && v1::decoding(self.bytes) is None
    }

    /// What the migration sweep makes of the entry: a legacy entry that
    /// decodes is rewritten in the current layout, any other stays as it is.
    pub open spec fn migrated(self) -> EntryView {
        match self.version {
            Version::V1 => match v1::decoding(self.bytes) {
                Some(legacy) => EntryView::current(v2::upgraded(legacy)),
                None => self,
            },
            Version::V2 => self,
        }
    }
}

/// The mathematical value of the store.
pub struct PalletView {
    /// The entry stored under each id.
    pub posts: Map<u32, EntryView>,
    /// The id that the next successful write receives.
    pub next_post: u32,
    /// The notifications emitted so far, oldest first.
    pub events: Seq<Event>,
}

impl PalletView {
    /// The store before any call.
    pub open spec fn empty() -> PalletView {
        PalletView { posts: Map::empty(), next_post: 0, events: Seq::empty() }
    }

    /// A store that holds nothing yet and whose counter stands at a given id.
    pub open spec fn starting_at(next_post: u32) -> PalletView {
        PalletView { posts: Map::empty(), next_post, events: Seq::empty() }
    }

    /// The store with one more entry.
    pub open spec fn with_entry(self, id: u32, entry: EntryView) -> PalletView {
        PalletView { posts: self.posts.insert(id, entry), ..self }
    }

    /// The counter lies above every id in use.
    pub open spec fn counter_above_keys(self) -> bool {
        forall|id: u32| self.posts.contains_key(id) ==> id < self.next_post
    }

    /// What reading an id returns.
    pub open spec fn read(self, id: u32) -> Result<PostView, Error> {
        if !self.posts.contains_key(id) {
            Err(Error::NotFound)
        } else {
            match self.posts[id].read() {
                Some(post) => Ok(post),
                None => Err(Error::DecodeError),
            }
        }
    }

    /// What a write call does to the store: the store after it, or the error
    /// with which it is rejected. The checks come in this order: the origin,
    /// the counter, the slot.
    pub open spec fn written(self, origin: Origin, title: Seq<u8>, content: ContentView) -> Result<
        PalletView,
        Error,
    > {
        match origin.signer() {
            None => Err(Error::BadOrigin),
            Some(who) => if self.next_post == u32::MAX {
                Err(Error::StorageOverflow)
            } else if self.posts.contains_key(self.next_post) {
                Err(Error::Conflict)
            } else {
                Ok(
                    PalletView {
                        posts: self.posts.insert(
                            self.next_post,
                            EntryView::current(PostView { title, content, author: who }),
                        ),
                        next_post: (self.next_post + 1) as u32,
                        events: self.events.push(Event::RecordStored(self.next_post, who)),
                    },
                )
            },
        }
    }

    /// The store after the migration sweep: every entry migrated, the counter
    /// and the notifications untouched.
    pub open spec fn migrated(self) -> PalletView {
        PalletView {
            posts: Map::new(
                |id: u32| self.posts.contains_key(id),
                |id: u32| self.posts[id].migrated(),
            ),
            ..self
        }
    }
}

/// Running the migration sweep a second time changes nothing.
pub proof fn lemma_migration_idempotent(store: PalletView)
    ensures
        store.migrated().migrated() == store.migrated(),
{
    assert(store.migrated().migrated().posts =~= store.migrated().posts);
}

/// The sweep keeps the ids in use, and with them the counter's place above them.
pub proof fn lemma_migration_keeps_ids(store: PalletView)
    ensures
        store.migrated().posts.dom() == store.posts.dom(),
        store.migrated().next_post == store.next_post,
        store.counter_above_keys() ==> store.migrated().counter_above_keys(),
{
    assert(store.migrated().posts.dom() =~= store.posts.dom());
}

/// The sweep changes no post: every id reads after it as it did before, with
/// the same title, content and author, or fails to read as it did before.
pub proof fn lemma_migration_keeps_reads(store: PalletView, id: u32)
    ensures
        store.migrated().read(id) == store.read(id),
{
    if store.posts.contains_key(id) {
        let entry = store.posts[id];
        if entry.version == Version::V1 {
            if let Some(legacy) = v1::decoding(entry.bytes) {
                v1::lemma_decoding_is_encoding(entry.bytes);
                v2::lemma_decoding_inverts_encoding(v2::upgraded(legacy));
            }
        }
    }
}

/// A post that a write call stored reads back as it was written, with the
/// content tagged as the call tagged it.
pub proof fn lemma_written_post_reads_back(
    store: PalletView,
    origin: Origin,
    title: Seq<u8>,
    content: ContentView,
)
    requires
        title.len() <= u32::MAX,
        content.payload().len() <= u32::MAX,
    ensures
        store.written(origin, title, content) matches Ok(after) ==> after.read(store.next_post)
            == Ok::<PostView, Error>(
            PostView { title, content, author: origin.signer().unwrap() },
        ),
{
    if let Some(who) = origin.signer() {
        v2::lemma_decoding_inverts_encoding(PostView { title, content, author: who });
    }
}

/// While the counter lies above every id in use, a write never meets a
/// conflict, and leaves the counter above every id in use.
pub proof fn lemma_counter_stays_above(
    store: PalletView,
    origin: Origin,
    title: Seq<u8>,
    content: ContentView,
)
    requires
        store.counter_above_keys(),
    ensures
        match store.written(origin, title, content) {
            Ok(after) => after.counter_above_keys(),
            Err(e) => e != Error::Conflict,
        },
{
}

/// A write call as a value: who calls, and with what.
pub struct Call {
    pub origin: Origin,
    pub title: Seq<u8>,
    pub content: ContentView,
}

impl PalletView {
    /// The store after a call, accepted or not.
    pub open spec fn after(self, call: Call) -> PalletView {
        match self.written(call.origin, call.title, call.content) {
            Ok(after) => after,
            Err(_) => self,
        }
    }

    /// The store after a sequence of calls, made in order.
    pub open spec fn replay(self, calls: Seq<Call>) -> PalletView
        decreases calls.len(),
    {
        if calls.len() == 0 {
            self
        } else {
            self.replay(calls.drop_last()).after(calls.last())
        }
    }

    /// How many calls of the sequence are accepted when their turn comes.
    pub open spec fn accepted(self, calls: Seq<Call>) -> nat
        decreases calls.len(),
    {
        if calls.len() == 0 {
            0
        } else {
            let earlier = calls.drop_last();
            let last = calls.last();
            if self.replay(earlier).written(last.origin, last.title, last.content) is Ok {
                self.accepted(earlier) + 1
            } else {
                self.accepted(earlier)
            }
        }
    }

    /// Every call of the sequence is accepted when its turn comes.
    pub open spec fn all_accepted(self, calls: Seq<Call>) -> bool
        decreases calls.len(),
    {
        calls.len() == 0 || {
            let earlier = calls.drop_last();
            let last = calls.last();
            self.all_accepted(earlier) && self.replay(earlier).written(
                last.origin,
                last.title,
                last.content,
            ) is Ok
        }
    }
}

/// Starting from the empty store, the calls of a sequence in which every call
/// is accepted receive the ids 0, 1, 2, ... in call order: the counter ends at
/// the number of calls, the ids in use are exactly those below it, each holds
/// the post of its call, and the notifications name each id with its caller.
pub proof fn lemma_ids_in_call_order(calls: Seq<Call>)
    requires
        PalletView::empty().all_accepted(calls),
    ensures
        ({
            let end = PalletView::empty().replay(calls);
            &&& end.next_post == calls.len()
            &&& end.events.len() == calls.len()
            &&& forall|id: u32| end.posts.contains_key(id) <==> id < calls.len()
            &&& forall|i: int|
                0 <= i < calls.len() ==> {
                    let call = #[trigger] calls[i];
                    let who = call.origin.signer().unwrap();
                    &&& call.origin.signer() is Some
                    &&& end.events[i] == Event::RecordStored(i as u32, who)
                    &&& end.posts[i as u32] == EntryView::current(
                        PostView { title: call.title, content: call.content, author: who },
                    )
                }
        }),
    decreases calls.len(),
{
    if calls.len() > 0 {
        let earlier = calls.drop_last();
        lemma_ids_in_call_order(earlier);
        let before = PalletView::empty().replay(earlier);
        let end = PalletView::empty().replay(calls);
        assert(end == before.after(calls.last()));
        assert forall|i: int| 0 <= i < calls.len() implies {
            let call = #[trigger] calls[i];
            let who = call.origin.signer().unwrap();
            &&& call.origin.signer() is Some
            &&& end.events[i] == Event::RecordStored(i as u32, who)
            &&& end.posts[i as u32] == EntryView::current(
                PostView { title: call.title, content: call.content, author: who },
            )
        } by {
            if i < earlier.len() {
                assert(earlier[i] == calls[i]);
            }
        }
    }
}

/// Whatever the calls and whichever of them are rejected, the counter moves
/// up by one for each accepted call and never down, the earlier notifications
/// stay, and the new ones carry the ids from the old counter upwards, one
/// after the other: a rejected call takes no id.
pub proof fn lemma_ids_without_gaps(store: PalletView, calls: Seq<Call>)
    ensures
        ({
            let end = store.replay(calls);
            let count = store.accepted(calls);
            &&& count <= calls.len()
            &&& end.next_post == store.next_post + count
            &&& end.events.len() == store.events.len() + count
            &&& forall|k: int| 0 <= k < store.events.len() ==> end.events[k] == store.events[k]
            &&& forall|k: int|
                0 <= k < count ==> (#[trigger] end.events[store.events.len() + k]).id()
                    == store.next_post + k
        }),
    decreases calls.len(),
{
    if calls.len() > 0 {
        lemma_ids_without_gaps(store, calls.drop_last());
    }
}

/// Authenticates an origin: only a signed one passes, and yields its account.
pub fn ensure_signed(origin: Origin) -> (out: Result<AccountId, Error>)
    ensures
        out == match origin.signer() {
            Some(who) => Ok::<AccountId, Error>(who),
            None => Err::<AccountId, Error>(Error::BadOrigin),
        },
{
    match origin {
        Origin::Signed(who) => Ok(who),
        _ => Err(Error::BadOrigin),
    }
}

/// One stored entry with the id it is stored under.
#[derive(Clone, Debug, PartialEq, Eq)]
struct Slot {
    id: u32,
    entry: Entry,
}

/// The map that a list of slots stands for.
spec fn slots_map(slots: Seq<Slot>) -> Map<u32, EntryView>
    decreases slots.len(),
{
    if slots.len() == 0 {
        Map::empty()
    } else {
        slots_map(slots.drop_last()).insert(slots.last().id, slots.last().entry@)
    }
}

/// No two slots share an id.
spec fn distinct_ids(slots: Seq<Slot>) -> bool {
    forall|i: int, j: int|
        0 <= i < j < slots.len() ==> (#[trigger] slots[i]).id != (#[trigger] slots[j]).id
}

/// One of the first `upto` slots holds the id with a legacy entry that does
/// not decode.
spec fn stuck(slots: Seq<Slot>, upto: int, id: u32) -> bool {
    exists|j: int|
        0 <= j < upto && (#[trigger] slots[j]).id == id && slots[j].entry@.unreadable_legacy()
}

/// Some slot holds the id.
spec fn has_id(slots: Seq<Slot>, id: u32) -> bool {
    exists|j: int| 0 <= j < slots.len() && (#[trigger] slots[j]).id == id
}

/// The map's keys are the slots' ids, and where no id repeats, each id maps
/// to its slot's entry.
proof fn lemma_slots_map(slots: Seq<Slot>)
    ensures
        forall|id: u32| slots_map(slots).contains_key(id) <==> has_id(slots, id),
        distinct_ids(slots) ==> forall|j: int|
            0 <= j < slots.len() ==> slots_map(slots)[(#[trigger] slots[j]).id] == slots[j].entry@,
    decreases slots.len(),
{
    if slots.len() > 0 {
        let init = slots.drop_last();
        let last = slots.last();
        lemma_slots_map(init);
        assert(slots_map(slots) == slots_map(init).insert(last.id, last.entry@));
        assert(slots[slots.len() - 1] == last);
        assert forall|id: u32| slots_map(slots).contains_key(id) implies has_id(slots, id) by {
            if id != last.id {
                assert(slots_map(init).contains_key(id));
                assert(has_id(init, id));
                let j = choose|j: int| 0 <= j < init.len() && (#[trigger] init[j]).id == id;
                assert(slots[j] == init[j]);
            }
        }
        assert forall|id: u32| has_id(slots, id) implies slots_map(slots).contains_key(id) by {
            let j = choose|j: int| 0 <= j < slots.len() && (#[trigger] slots[j]).id == id;
            if j < slots.len() - 1 {
                assert(init[j] == slots[j]);
                assert(has_id(init, id));
            }
        }
        if distinct_ids(slots) {
            assert forall|i: int, j: int| 0 <= i < j < init.len() implies (#[trigger] init[i]).id
                != (#[trigger] init[j]).id by {
                assert(slots[i].id != slots[j].id);
            }
            assert forall|j: int| 0 <= j < slots.len() implies #[trigger] slots_map(
                slots,
            )[slots[j].id] == slots[j].entry@ by {
                if j < slots.len() - 1 {
                    assert(init[j] == slots[j]);
                    assert(slots[j].id != slots[slots.len() - 1].id);
                    assert(slots_map(init)[init[j].id] == init[j].entry@);
                }
            }
        }
    }
}

/// The store: entries by id, the id counter, and the notification log.
#[derive(Clone, Debug, PartialEq, Eq)]
pub struct Pallet {
    slots: Vec<Slot>,
    next_post: u32,
    events: Vec<Event>,
}

impl View for Pallet {
    type V = PalletView;

    closed spec fn view(&self) -> PalletView {
        PalletView {
            posts: slots_map(self.slots@),
            next_post: self.next_post,
            events: self.events@,
        }
    }
}

impl Pallet {
    /// No id is held twice.
    pub closed spec fn wf(&self) -> bool {
        distinct_ids(self.slots@)
    }

    /// An empty store, whose first id is 0.
    pub fn new() -> (out: Pallet)
        ensures
            out.wf(),
            out@ == PalletView::empty(),
    {
        Pallet { slots: Vec::new(), next_post: 0, events: Vec::new() }
    }

    /// A store without entries whose counter resumes at a persisted value.
    pub fn with_counter(next_post: u32) -> (out: Pallet)
        ensures
            out.wf(),
            out@ == PalletView::starting_at(next_post),
    {
        Pallet { slots: Vec::new(), next_post, events: Vec::new() }
    }

    /// The id that the next successful write receives.
    pub fn next_post(&self) -> (out: u32)
        ensures
            out == self@.next_post,
    {
        self.next_post
    }

    /// The notifications emitted so far, oldest first.
    pub fn events(&self) -> (out: &Vec<Event>)
        ensures
            out@ == self@.events,
    {
        &self.events
    }

    /// The position of the slot that holds the id.
    fn find(&self, id: u32) -> (out: Option<usize>)
        requires
            self.wf(),
        ensures
            match out {
                Some(i) => i < self.slots@.len() && self.slots@[i as int].id == id
                    && self@.posts.contains_key(id) && self@.posts[id]
                    == self.slots@[i as int].entry@,
                None => !self@.posts.contains_key(id),
            },
    {
        let mut i: usize = 0;
        while i < self.slots.len()
            invariant
                self.wf(),
                i <= self.slots@.len(),
                forall|j: int| 0 <= j < i ==> (#[trigger] self.slots@[j]).id != id,
            decreases self.slots@.len() - i,
        {
            if self.slots[i].id == id {
                proof {
                    lemma_slots_map(self.slots@);
                    assert(self.slots@[i as int].id == id);
                    assert(has_id(self.slots@, id));
                }
                return Some(i);
            }
            i += 1;
        }
        proof {
            lemma_slots_map(self.slots@);
            assert(!has_id(self.slots@, id));
        }
        None
    }

    /// Whether an entry is stored under the id.
    pub fn contains(&self, id: u32) -> (out: bool)
        requires
            self.wf(),
        ensures
            out == self@.posts.contains_key(id),
    {
        self.find(id).is_some()
    }

    /// The entry stored under the id, as it is stored.
    pub fn entry(&self, id: u32) -> (out: Option<&Entry>)
        requires
            self.wf(),
        ensures
            match out {
                Some(entry) => self@.posts.contains_key(id) && self@.posts[id] == entry@,
                None => !self@.posts.contains_key(id),
            },
    {
        match self.find(id) {
            Some(i) => Some(&self.slots[i].entry),
            None => None,
        }
    }

    /// Reads the post stored under the id. A legacy entry is decoded with the
    /// legacy decoder and upgraded; nothing is written.
    pub fn get(&self, id: u32) -> (out: Result<Post, Error>)
        requires
            self.wf(),
        ensures
            match out {
                Ok(post) => self@.read(id) == Ok::<PostView, Error>(post@),
                Err(e) => self@.read(id) == Err::<PostView, Error>(e),
            },
    {
        match self.find(id) {
            None => Err(Error::NotFound),
            Some(i) => {
                let entry = &self.slots[i].entry;
                match entry.version {
                    Version::V1 => match v1::Post::decode(entry.bytes.as_slice()) {
                        Ok(legacy) => Ok(v2::upgrade(legacy)),
                        Err(e) => Err(e),
                    },
                    Version::V2 => Post::decode(entry.bytes.as_slice()),
                }
            },
        }
    }

    /// Hands out the next id and advances the counter. Fails at the largest
    /// id, where the counter could only wrap.
    pub fn allocate_id(&mut self) -> (out: Result<u32, Error>)
        requires
            old(self).wf(),
        ensures
            final(self).wf(),
            final(self)@.posts == old(self)@.posts,
            final(self)@.events == old(self)@.events,
            match out {
                Ok(id) => id == old(self)@.next_post && id < u32::MAX && final(self)@.next_post
                    == id + 1,
                Err(e) => e == Error::StorageOverflow && old(self)@.next_post == u32::MAX
                    && final(self)@ == old(self)@,
            },
    {
        let id = self.next_post;
        if id == u32::MAX {
            return Err(Error::StorageOverflow);
        }
        self.next_post = id + 1;
        Ok(id)
    }

    /// Stores an entry under an id that holds none. An id in use is a
    /// conflict, and the store stays as it is.
    pub fn insert_entry(&mut self, id: u32, entry: Entry) -> (out: Result<(), Error>)
        requires
            old(self).wf(),
        ensures
            final(self).wf(),
            old(self)@.posts.contains_key(id) ==> out == Err::<(), Error>(Error::Conflict)
                && final(self)@ == old(self)@,
            !old(self)@.posts.contains_key(id) ==> out is Ok && final(self)@ == old(
                self,
            )@.with_entry(id, entry@),
    {
        if self.find(id).is_some() {
            return Err(Error::Conflict);
        }
        proof {
            lemma_slots_map(self.slots@);
        }
        let ghost before = self.slots@;
        self.slots.push(Slot { id, entry });
        proof {
            assert(self.slots@.drop_last() =~= before);
            assert(!has_id(before, id));
            let now = self.slots@;
            assert forall|i: int, j: int| 0 <= i < j < now.len() implies (#[trigger] now[i]).id
                != (#[trigger] now[j]).id by {
                assert(before[i] == self.slots@[i]);
                if j < before.len() {
                    assert(before[j] == self.slots@[j]);
                } else {
                    assert(self.slots@[j].id == id);
                }
            }
        }
        Ok(())
    }

    /// Stores a post under an id, in the current layout.
    pub fn insert(&mut self, id: u32, post: &Post) -> (out: Result<(), Error>)
        requires
            old(self).wf(),
            v2::encodable(post@),
        ensures
            final(self).wf(),
            old(self)@.posts.contains_key(id) ==> out == Err::<(), Error>(Error::Conflict)
                && final(self)@ == old(self)@,
            !old(self)@.posts.contains_key(id) ==> out is Ok && final(self)@ == old(
                self,
            )@.with_entry(id, EntryView::current(post@)) && final(self)@.read(id) == Ok::<
                PostView,
                Error,
            >(post@),
    {
        let bytes = post.encode();
        self.insert_entry(id, Entry { version: Version::V2, bytes })
    }

    /// Stores a post under an id in the legacy layout, as the first schema
    /// wrote it.
    pub fn insert_legacy(&mut self, id: u32, post: &v1::Post) -> (out: Result<(), Error>)
        requires
            old(self).wf(),
            v1::encodable(post@),
        ensures
            final(self).wf(),
            old(self)@.posts.contains_key(id) ==> out == Err::<(), Error>(Error::Conflict)
                && final(self)@ == old(self)@,
            !old(self)@.posts.contains_key(id) ==> out is Ok && final(self)@ == old(
                self,
            )@.with_entry(id, EntryView::legacy(post@)) && final(self)@.read(id) == Ok::<
                PostView,
                Error,
            >(v2::upgraded(post@)),
    {
        let bytes = post.encode();
        self.insert_entry(id, Entry { version: Version::V1, bytes })
    }

    /// The steps that both write calls share: authenticate, take an id,
    /// insert, notify. A failed insert gives the id back.
    fn store(&mut self, origin: Origin, title: Vec<u8>, content: Content) -> (out: Result<
        (),
        Error,
    >)
        requires
            old(self).wf(),
            title@.len() <= u32::MAX,
            content@.payload().len() <= u32::MAX,
        ensures
            final(self).wf(),
            match old(self)@.written(origin, title@, content@) {
                Ok(after) => out is Ok && final(self)@ == after,
                Err(e) => out == Err::<(), Error>(e) && final(self)@ == old(self)@,
            },
            out is Ok ==> final(self)@.read(old(self)@.next_post) == Ok::<PostView, Error>(
                PostView { title: title@, content: content@, author: origin.signer().unwrap() },
            ),
    {
        let who = match ensure_signed(origin) {
            Ok(who) => who,
            Err(e) => { return Err(e); },
        };
        let id = match self.allocate_id() {
            Ok(id) => id,
            Err(e) => { return Err(e); },
        };
        let post = Post { title, content, author: who };
        match self.insert(id, &post) {
            Ok(()) => {
                self.events.push(Event::RecordStored(id, who));
                proof {
                    let after = old(self)@.written(origin, title@, content@).unwrap();
                    assert(self@.posts =~= after.posts);
                    assert(self@.events =~= after.events);
                }
                Ok(())
            },
            Err(e) => {
                self.next_post = id;
                Err(e)
            },
        }
    }

    /// Stores a post with plain content under the next id, for a signed
    /// caller, and logs the notification. A rejected call changes nothing.
    pub fn post(&mut self, origin: Origin, title: Vec<u8>, content: Vec<u8>) -> (out: Result<
        (),
        Error,
    >)
        requires
            old(self).wf(),
            title@.len() <= u32::MAX,
            content@.len() <= u32::MAX,
        ensures
            final(self).wf(),
            match old(self)@.written(origin, title@, ContentView::Plain(content@)) {
                Ok(after) => out is Ok && final(self)@ == after,
                Err(e) => out == Err::<(), Error>(e) && final(self)@ == old(self)@,
            },
            out is Ok ==> final(self)@.read(old(self)@.next_post) == Ok::<PostView, Error>(
                PostView {
                    title: title@,
                    content: ContentView::Plain(content@),
                    author: origin.signer().unwrap(),
                },
            ),
    {
        self.store(origin, title, Content::Plain(content))
    }

    /// Stores a post with encrypted content under the next id, for a signed
    /// caller, and logs the notification. A rejected call changes nothing.
    pub fn post_encrypted(&mut self, origin: Origin, title: Vec<u8>, content: Vec<u8>) -> (out:
        Result<(), Error>)
        requires
            old(self).wf(),
            title@.len() <= u32::MAX,
            content@.len() <= u32::MAX,
        ensures
            final(self).wf(),
            match old(self)@.written(origin, title@, ContentView::Encrypted(content@)) {
                Ok(after) => out is Ok && final(self)@ == after,
                Err(e) => out == Err::<(), Error>(e) && final(self)@ == old(self)@,
            },
            out is Ok ==> final(self)@.read(old(self)@.next_post) == Ok::<PostView, Error>(
                PostView {
                    title: title@,
                    content: ContentView::Encrypted(content@),
                    author: origin.signer().unwrap(),
                },
            ),
    {
        self.store(origin, title, Content::Encrypted(content))
    }

    /// The migration sweep: rewrites every legacy entry that decodes in the
    /// current layout, and returns the ids of those that do not, which stay as
    /// they are. The counter and the notifications are not touched, and every
    /// id reads as it did before.
    pub fn migrate(&mut self) -> (out: Vec<u32>)
        requires
            old(self).wf(),
        ensures
            final(self).wf(),
            final(self)@ == old(self)@.migrated(),
            forall|id: u32|
                out@.contains(id) <==> old(self)@.posts.contains_key(id) && old(
                    self,
                )@.posts[id].unreadable_legacy(),
            out@.no_duplicates(),
            forall|id: u32| final(self)@.read(id) == old(self)@.read(id),
    {
        let ghost before = self.slots@;
        let mut failed: Vec<u32> = Vec::new();
        let mut i: usize = 0;
        while i < self.slots.len()
            invariant
                i <= self.slots@.len(),
                before == old(self).slots@,
                distinct_ids(before),
                self.slots@.len() == before.len(),
                self.next_post == old(self).next_post,
                self.events == old(self).events,
                forall|j: int|
                    0 <= j < before.len() ==> (#[trigger] self.slots@[j]).id == before[j].id,
                forall|j: int|
                    0 <= j < i ==> (#[trigger] self.slots@[j]).entry@ == before[j].entry@.migrated()
                        && self.slots@[j].entry@.read() == before[j].entry@.read(),
                forall|j: int| i <= j < before.len() ==> #[trigger] self.slots@[j] == before[j],
                forall|id: u32| failed@.contains(id) <==> stuck(before, i as int, id),
                failed@.no_duplicates(),
            decreases self.slots@.len() - i,
        {
            let id = self.slots[i].id;
            let ghost reported = failed@;
            assert(self.slots@[i as int] == before[i as int]);
            match self.slots[i].entry.version {
                Version::V1 => {
                    match v1::Post::decode(self.slots[i].entry.bytes.as_slice()) {
                        Ok(legacy) => {
                            let post = v2::upgrade(legacy);
                            let bytes = post.encode();
                            let entry = Entry { version: Version::V2, bytes };
                            self.slots.set(i, Slot { id, entry });
                        },
                        Err(_) => {
                            failed.push(id);
                        },
                    }
                },
                Version::V2 => {},
            }
            proof {
                let unreadable = before[i as int].entry@.unreadable_legacy();
                assert(failed@ == if unreadable {
                    reported.push(id)
                } else {
                    reported
                });
                if reported.contains(id) {
                    let j = choose|j: int|
                        0 <= j < i && (#[trigger] before[j]).id == id
                            && before[j].entry@.unreadable_legacy();
                    assert(before[j].id != before[i as int].id);
                }
                assert forall|a: int, b: int|
                    0 <= a < failed@.len() && 0 <= b < failed@.len() && a != b implies failed@[a]
                    != failed@[b] by {
                    if a < reported.len() {
                        assert(reported.contains(reported[a]));
                    }
                    if b < reported.len() {
                        assert(reported.contains(reported[b]));
                    }
                }
                assert forall|x: u32| failed@.contains(x) <==> stuck(before, i + 1, x) by {
                    vstd::seq_lib::lemma_seq_contains_after_push(reported, id, x);
                    if stuck(before, i + 1, x) {
                        let j = choose|j: int|
                            0 <= j < i + 1 && (#[trigger] before[j]).id == x
                                && before[j].entry@.unreadable_legacy();
                        if j < i {
                            assert(stuck(before, i as int, x));
                        }
                    }
                    if stuck(before, i as int, x) {
                        let j = choose|j: int|
                            0 <= j < i && (#[trigger] before[j]).id == x
                                && before[j].entry@.unreadable_legacy();
                        assert(before[j].id == x);
                    }
                    if unreadable && x == id {
                        assert(before[i as int].id == x);
                    }
                }
            }
            i += 1;
        }
        proof {
            let now = self.slots@;
            assert(distinct_ids(now)) by {
                assert forall|a: int, b: int| 0 <= a < b < now.len() implies (#[trigger] now[a]).id
                    != (#[trigger] now[b]).id by {
                    assert(before[a].id != before[b].id);
                }
            }
            lemma_slots_map(before);
            lemma_slots_map(now);
            let old_posts = slots_map(before);
            assert forall|id: u32| has_id(now, id) <==> has_id(before, id) by {
                if has_id(now, id) {
                    let j = choose|j: int| 0 <= j < now.len() && (#[trigger] now[j]).id == id;
                    assert(before[j].id == id);
                }
                if has_id(before, id) {
                    let j = choose|j: int| 0 <= j < before.len() && (#[trigger] before[j]).id == id;
                    assert(now[j].id == id);
                }
            }
            let count = before.len() as int;
            assert forall|id: u32| old_posts.contains_key(id) implies slots_map(now)[id]
                == old_posts[id].migrated() && slots_map(now)[id].read() == old_posts[id].read()
                && (old_posts[id].unreadable_legacy() <==> stuck(before, count, id)) by {
                assert(has_id(before, id));
                let j = choose|j: int| 0 <= j < before.len() && (#[trigger] before[j]).id == id;
                assert(now[j].id == id);
                assert(slots_map(now)[now[j].id] == now[j].entry@);
                assert(old_posts[before[j].id] == before[j].entry@);
                if stuck(before, before.len() as int, id) {
                    let k = choose|k: int|
                        0 <= k < before.len() && (#[trigger] before[k]).id == id
                            && before[k].entry@.unreadable_legacy();
                    assert(k == j);
                }
            }
            assert forall|id: u32| stuck(before, before.len() as int, id) implies has_id(
                before,
                id,
            ) by {
                let k = choose|k: int|
                    0 <= k < before.len() && (#[trigger] before[k]).id == id
                        && before[k].entry@.unreadable_legacy();
                assert(before[k].id == id);
            }
            assert forall|id: u32| slots_map(now).contains_key(id) <==> old_posts.contains_key(
                id,
            ) by {
                assert(has_id(now, id) <==> has_id(before, id));
            }
            assert(i == before.len());
            assert forall|id: u32|
                failed@.contains(id) <==> old_posts.contains_key(id)
                    && old_posts[id].unreadable_legacy() by {
                assert(has_id(before, id) <==> old_posts.contains_key(id));
                assert(failed@.contains(id) <==> stuck(before, before.len() as int, id));
            }
            assert(self@.posts =~= old(self)@.migrated().posts);
            assert forall|id: u32| self@.read(id) == old(self)@.read(id) by {
                assert(slots_map(now).contains_key(id) <==> old_posts.contains_key(id));
            }
        }
        failed
    }
}

} // verus!
