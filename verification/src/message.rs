use vstd::prelude::*;
use vstd::string::StrSliceExecFns;

verus! {

/// The kind of a wire message.
#[derive(Clone, Copy, Debug, PartialEq, Eq, Structural)]
pub enum MessageType {
    Text,
    File,
    FileChunk,
    FileComplete,
    Heartbeat,
    Ack,
    Error,
}

/// Mathematical image of a `Message`: every field as a sequence of
/// characters, an integer, or a sequence of key/value pairs.
#[verifier::ext_equal]
pub ghost struct MsgView {
    pub id: Seq<char>,
    pub kind: MessageType,
    pub from: Seq<char>,
    pub to: Seq<char>,
    pub content: Seq<char>,
    pub timestamp: int,
    pub metadata: Seq<(Seq<char>, Seq<char>)>,
}

/// One chat message.  `id` and `timestamp` are set once, at
/// construction; the metadata mapping is order-irrelevant and is kept
/// as a vector of pairs whose keys stay pairwise distinct.
#[derive(Clone, Debug, PartialEq)]
pub struct Message {
    pub id: String,
    pub msg_type: MessageType,
    pub from: String,
    pub to: String,
    pub content: String,
    pub timestamp: i64,
    pub metadata: Vec<(String, String)>,
}

impl View for Message {
    type V = MsgView;

    open spec fn view(&self) -> MsgView {
        MsgView {
            id: self.id@,
            kind: self.msg_type,
            from: self.from@,
            to: self.to@,
            content: self.content@,
            timestamp: self.timestamp as int,
            metadata: Seq::new(
                self.metadata@.len(),
                |i: int| (self.metadata@[i].0@, self.metadata@[i].1@),
            ),
        }
    }
}

/// The keys of a metadata mapping are pairwise distinct.
pub open spec fn meta_keys_unique(md: Seq<(Seq<char>, Seq<char>)>) -> bool {
    forall|i: int, j: int| 0 <= i < j < md.len() ==> md[i].0 != md[j].0
}

/// Value stored under `k`, if any: the first pair whose key is `k`.
pub open spec fn meta_lookup(md: Seq<(Seq<char>, Seq<char>)>, k: Seq<char>) -> Option<Seq<char>>
    decreases md.len(),
{
    if md.len() == 0 {
        None
    } else if md[0].0 == k {
        Some(md[0].1)
    } else {
        meta_lookup(md.drop_first(), k)
    }
}

/// Mapping after `insert(k, v)`: the first pair keyed `k` is replaced,
/// or the pair is appended when `k` is absent.
pub open spec fn meta_insert(
    md: Seq<(Seq<char>, Seq<char>)>,
    k: Seq<char>,
    v: Seq<char>,
) -> Seq<(Seq<char>, Seq<char>)>
    decreases md.len(),
{
    if md.len() == 0 {
        seq![(k, v)]
    } else if md[0].0 == k {
        seq![(k, v)] + md.drop_first()
    } else {
        seq![md[0]] + meta_insert(md.drop_first(), k, v)
    }
}

proof fn lemma_meta_insert_found(md: Seq<(Seq<char>, Seq<char>)>, k: Seq<char>, v: Seq<char>, i: int)
    requires
        0 <= i < md.len(),
        md[i].0 == k,
        forall|j: int| 0 <= j < i ==> md[j].0 != k,
    ensures
        meta_insert(md, k, v) =~= md.update(i, (k, v)),
    decreases i,
{
    if i == 0 {
        assert(meta_insert(md, k, v) =~= md.update(0, (k, v)));
    } else {
        lemma_meta_insert_found(md.drop_first(), k, v, i - 1);
        assert(md.drop_first().update(i - 1, (k, v)) =~= md.update(i, (k, v)).drop_first());
        assert(meta_insert(md, k, v) =~= md.update(i, (k, v)));
    }
}

pub(crate) proof fn lemma_meta_insert_absent(md: Seq<(Seq<char>, Seq<char>)>, k: Seq<char>, v: Seq<char>)
    requires
        forall|j: int| 0 <= j < md.len() ==> md[j].0 != k,
    ensures
        meta_insert(md, k, v) =~= md.push((k, v)),
    decreases md.len(),
{
    if md.len() > 0 {
        lemma_meta_insert_absent(md.drop_first(), k, v);
        assert(meta_insert(md, k, v) =~= md.push((k, v)));
    }
}

/// The view of a vector of string pairs as a metadata mapping.
pub open spec fn pairs_of(v: Seq<(String, String)>) -> Seq<(Seq<char>, Seq<char>)> {
    Seq::new(v.len(), |i: int| (v[i].0@, v[i].1@))
}

/// Insert into a vector of pairs as a mapping would: replace the first
/// pair with this key, or append when the key is absent.
pub(crate) fn vec_meta_insert(md: &mut Vec<(String, String)>, key: String, value: String)
    ensures
        pairs_of(final (md)@) =~= meta_insert(pairs_of(old(md)@), key@, value@),
{
    let ghost md0 = pairs_of(md@);
    let mut i: usize = 0;
    let mut found: bool = false;
    while i < md.len() && !found
        invariant
            0 <= i <= md.len(),
            md0 == pairs_of(md@),
            forall|j: int| 0 <= j < i ==> md0[j].0 != key@,
            found ==> i < md.len() && md0[i as int].0 == key@,
        decreases md.len() - i + (if found { 0int } else { 1int }),
    {
        if md[i].0 == key {
            found = true;
        } else {
            i = i + 1;
        }
    }
    if found {
        md.set(i, (key, value));
        proof {
            lemma_meta_insert_found(md0, key@, value@, i as int);
            assert(pairs_of(md@) =~= md0.update(i as int, (key@, value@)));
        }
    } else {
        md.push((key, value));
        proof {
            lemma_meta_insert_absent(md0, key@, value@);
            assert(pairs_of(md@) =~= md0.push((key@, value@)));
        }
    }
}

/// Relies on `uuid::Uuid::new_v4` and its `Display` form: a freshly
/// drawn random identifier, rendered as 36 hyphenated hex characters.
/// The value depends on the random source, so nothing more is promised.
#[verifier::external_body]
fn fresh_message_id() -> (r: String)
    ensures
        r@.len() == 36,
{
    uuid::Uuid::new_v4().to_string()
}

/// Relies on `chrono::Utc::now().timestamp()`: whole seconds since the
/// Unix epoch.  The value depends on the clock, so nothing is promised.
#[verifier::external_body]
fn now_unix_seconds() -> (r: i64) {
    chrono::Utc::now().timestamp()
}

impl Message {
    /// Build a message of the given kind.  The identifier and the
    /// timestamp are drawn here, once; the metadata starts empty.
    pub fn new(msg_type: MessageType, from: String, to: String, content: String) -> (m: Message)
        ensures
            m.msg_type == msg_type,
            m.from == from,
            m.to == to,
            m.content == content,
            m@.metadata =~= Seq::<(Seq<char>, Seq<char>)>::empty(),
            m.id@.len() == 36,
            meta_keys_unique(m@.metadata),
    {
        Message {
            id: fresh_message_id(),
            msg_type,
            from,
            to,
            content,
            timestamp: now_unix_seconds(),
            metadata: Vec::new(),
        }
    }

    /// A text message.
    pub fn text(from: String, to: String, content: String) -> (m: Message)
        ensures
            m.msg_type == MessageType::Text,
            m.from == from,
            m.to == to,
            m.content == content,
            m@.metadata =~= Seq::<(Seq<char>, Seq<char>)>::empty(),
            m.id@.len() == 36,
            meta_keys_unique(m@.metadata),
    {
        Message::new(MessageType::Text, from, to, content)
    }

    /// Insert a metadata pair, replacing the value when the key is
    /// already present, and return the message.
    pub fn with_metadata(self, key: String, value: String) -> (m: Message)
        ensures
            m.id == self.id,
            m.msg_type == self.msg_type,
            m.from == self.from,
            m.to == self.to,
            m.content == self.content,
            m.timestamp == self.timestamp,
            m@.metadata =~= meta_insert(self@.metadata, key@, value@),
            meta_keys_unique(self@.metadata) ==> meta_keys_unique(m@.metadata),
    {
        let mut md = self.metadata;
        vec_meta_insert(&mut md, key, value);
        let m = Message {
            id: self.id,
            msg_type: self.msg_type,
            from: self.from,
            to: self.to,
            content: self.content,
            timestamp: self.timestamp,
            metadata: md,
        };
        proof {
            if meta_keys_unique(self@.metadata) {
                lemma_meta_insert_unique(self@.metadata, key@, value@);
            }
        }
        m
    }

    /// The value stored in the metadata under `key`, if any.
    pub fn get_metadata(&self, key: &str) -> (r: Option<&String>)
        ensures
            match r {
                Some(v) => meta_lookup(self@.metadata, key@) == Some(v@),
                None => meta_lookup(self@.metadata, key@) is None,
            },
    {
        let mut i: usize = 0;
        while i < self.metadata.len()
            invariant
                0 <= i <= self.metadata.len(),
                forall|j: int| 0 <= j < i ==> self@.metadata[j].0 != key@,
            decreases self.metadata.len() - i,
        {
            if str_eq(self.metadata[i].0.as_str(), key) {
                proof {
                    lemma_meta_lookup_at(self@.metadata, key@, i as int);
                }
                return Some(&self.metadata[i].1);
            }
            i = i + 1;
        }
        proof {
            lemma_meta_lookup_none(self@.metadata, key@);
        }
        None
    }
}

proof fn lemma_meta_insert_unique(md: Seq<(Seq<char>, Seq<char>)>, k: Seq<char>, v: Seq<char>)
    requires
        meta_keys_unique(md),
    ensures
        meta_keys_unique(meta_insert(md, k, v)),
    decreases md.len(),
{
    if md.len() == 0 {
    } else if md[0].0 == k {
        assert forall|i: int, j: int|
            0 <= i < j < meta_insert(md, k, v).len() implies meta_insert(md, k, v)[i].0
            != meta_insert(md, k, v)[j].0 by {
            assert(meta_insert(md, k, v)[i] == (seq![(k, v)] + md.drop_first())[i]);
            assert(meta_insert(md, k, v)[j] == (seq![(k, v)] + md.drop_first())[j]);
        }
    } else {
        assert(meta_keys_unique(md.drop_first()));
        lemma_meta_insert_unique(md.drop_first(), k, v);
        lemma_meta_insert_keeps_keys(md.drop_first(), k, v);
        assert forall|i: int, j: int|
            0 <= i < j < meta_insert(md, k, v).len() implies meta_insert(md, k, v)[i].0
            != meta_insert(md, k, v)[j].0 by {
            let tail = meta_insert(md.drop_first(), k, v);
            assert(meta_insert(md, k, v) == seq![md[0]] + tail);
            if i == 0 {
                assert(meta_insert(md, k, v)[j].0 == tail[j - 1].0);
            } else {
                assert(meta_insert(md, k, v)[i].0 == tail[i - 1].0);
                assert(meta_insert(md, k, v)[j].0 == tail[j - 1].0);
            }
        }
    }
}

/// Every key of `meta_insert(md, k, v)` is `k` or a key of `md`.
proof fn lemma_meta_insert_keeps_keys(md: Seq<(Seq<char>, Seq<char>)>, k: Seq<char>, v: Seq<char>)
    ensures
        forall|i: int|
            0 <= i < meta_insert(md, k, v).len() ==> (meta_insert(md, k, v)[i].0 == k || exists|j: int|
                0 <= j < md.len() && md[j].0 == #[trigger] meta_insert(md, k, v)[i].0),
    decreases md.len(),
{
    if md.len() == 0 {
    } else if md[0].0 == k {
        assert forall|i: int| 0 <= i < meta_insert(md, k, v).len() implies (meta_insert(md, k, v)[i].0
            == k || exists|j: int|
            0 <= j < md.len() && md[j].0 == #[trigger] meta_insert(md, k, v)[i].0) by {
            if i > 0 {
                assert(meta_insert(md, k, v)[i] == md.drop_first()[i - 1]);
                assert(md[i] == md.drop_first()[i - 1]);
            }
        }
    } else {
        lemma_meta_insert_keeps_keys(md.drop_first(), k, v);
        assert forall|i: int| 0 <= i < meta_insert(md, k, v).len() implies (meta_insert(md, k, v)[i].0
            == k || exists|j: int|
            0 <= j < md.len() && md[j].0 == #[trigger] meta_insert(md, k, v)[i].0) by {
            let tail = meta_insert(md.drop_first(), k, v);
            if i == 0 {
                assert(meta_insert(md, k, v)[0] == md[0]);
            } else {
                assert(meta_insert(md, k, v)[i] == tail[i - 1]);
                if tail[i - 1].0 != k {
                    let j = choose|j: int|
                        0 <= j < md.drop_first().len() && md.drop_first()[j].0 == tail[i - 1].0;
                    assert(md[j + 1].0 == tail[i - 1].0);
                }
            }
        }
    }
}

proof fn lemma_meta_lookup_at(md: Seq<(Seq<char>, Seq<char>)>, k: Seq<char>, i: int)
    requires
        0 <= i < md.len(),
        md[i].0 == k,
        forall|j: int| 0 <= j < i ==> md[j].0 != k,
    ensures
        meta_lookup(md, k) == Some(md[i].1),
    decreases i,
{
    if i == 0 {
    } else {
        assert(md.drop_first()[i - 1] == md[i]);
        assert forall|j: int| 0 <= j < i - 1 implies md.drop_first()[j].0 != k by {
            assert(md.drop_first()[j] == md[j + 1]);
        }
        lemma_meta_lookup_at(md.drop_first(), k, i - 1);
    }
}

proof fn lemma_meta_lookup_none(md: Seq<(Seq<char>, Seq<char>)>, k: Seq<char>)
    requires
        forall|j: int| 0 <= j < md.len() ==> md[j].0 != k,
    ensures
        meta_lookup(md, k) is None,
    decreases md.len(),
{
    if md.len() > 0 {
        assert forall|j: int| 0 <= j < md.drop_first().len() implies md.drop_first()[j].0 != k by {
            assert(md.drop_first()[j] == md[j + 1]);
        }
        lemma_meta_lookup_none(md.drop_first(), k);
    }
}

/// Character-for-character equality of two string slices.
pub fn str_eq(a: &str, b: &str) -> (r: bool)
    ensures
        r == (a@ == b@),
{
    let la = a.unicode_len();
    let lb = b.unicode_len();
    if la != lb {
        proof {
            assert(a@.len() != b@.len());
        }
        return false;
    }
    let mut i: usize = 0;
    while i < la
        invariant
            la == a@.len(),
            la == b@.len(),
            0 <= i <= la,
            forall|j: int| 0 <= j < i ==> a@[j] == b@[j],
        decreases la - i,
    {
        if a.get_char(i) != b.get_char(i) {
            return false;
        }
        i = i + 1;
    }
    proof {
        assert(a@ =~= b@);
    }
    true
}

} // verus!
