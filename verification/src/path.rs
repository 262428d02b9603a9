//! Keys and paths: the addresses of entries in the mirrored table.
//!
//! A key is one path segment; a path is a non-empty sequence of keys.  A
//! path round-trips through its slash-delimited string form, which is
//! also the topic name used on the wire.

use vstd::prelude::*;

verus! {

broadcast use vstd::seq::group_seq_axioms, vstd::seq_lib::group_seq_lib_default;

/// One path segment: an opaque UTF-8 string compared by content.
#[derive(Debug)]
pub struct Key {
    inner: String,
}

impl View for Key {
    type V = Seq<char>;

    closed spec fn view(&self) -> Seq<char> {
        self.inner@
    }
}

/// The views of a sequence of keys, elementwise.
pub open spec fn keys_view(s: Seq<Key>) -> Seq<Seq<char>> {
    s.map_values(|k: Key| k@)
}

/// The byte sequence was not valid UTF-8.
#[derive(Clone, Copy, Debug, PartialEq, Eq, Structural)]
pub struct EncodingError;

/// Relies on std's `String::from_utf8`: it succeeds exactly on valid
/// UTF-8 input and returns its decoding.
#[verifier::external_body]
fn string_from_utf8(bytes: &[u8]) -> (r: Option<String>)
    ensures
        match r {
            Some(s) => vstd::utf8::valid_utf8(bytes@) && s@ == vstd::utf8::decode_utf8(
                bytes@,
            ),
            None => !vstd::utf8::valid_utf8(bytes@),
        },
{
    match String::from_utf8(bytes.to_vec()) {
        Ok(s) => Some(s),
        Err(_) => None,
    }
}

/// Relies on std's `String::pop`: it removes the last character, if
/// there is one.
#[verifier::external_body]
pub(crate) fn pop_char(s: &mut String)
    ensures
        old(s)@.len() == 0 ==> final(s)@ == old(s)@,
        old(s)@.len() > 0 ==> final(s)@ == old(s)@.take(old(s)@.len() - 1),
{
    let _ = s.pop();
}

/// Whether two strings hold the same characters.
pub fn str_eq(a: &str, b: &str) -> (r: bool)
    ensures
        r == (a@ == b@),
{
    let n = a.unicode_len();
    if n != b.unicode_len() {
        return false;
    }
    let mut i: usize = 0;
    while i < n
        invariant
            n == a@.len(),
            n == b@.len(),
            i <= n,
            forall|j: int| 0 <= j < i ==> a@[j] == b@[j],
        decreases n - i,
    {
        if a.get_char(i) != b.get_char(i) {
            return false;
        }
        i = i + 1;
    }
    proof {
        assert(a@ =~= b@);
    }
    true
}

/// Relies on std's `String::push`: it appends one character.
#[verifier::external_body]
pub(crate) fn push_char(s: &mut String, c: char)
    ensures
        final(s)@ == old(s)@.push(c),
{
    s.push(c);
}

impl Key {
    /// A key holding the given text.
    pub fn new(text: String) -> (k: Key)
        ensures
            k@ == text@,
    {
        Key { inner: text }
    }

    /// A key decoded from UTF-8 bytes; fails exactly on invalid UTF-8.
    pub fn from_utf8(bytes: &[u8]) -> (r: Result<Key, EncodingError>)
        ensures
            match r {
                Ok(k) => vstd::utf8::valid_utf8(bytes@) && k@ == vstd::utf8::decode_utf8(
                    bytes@,
                ),
                Err(_) => !vstd::utf8::valid_utf8(bytes@),
            },
    {
        match string_from_utf8(bytes) {
            Some(s) => Ok(Key { inner: s }),
            None => Err(EncodingError),
        }
    }

    /// The key's text.
    pub fn as_str(&self) -> (r: &str)
        ensures
            r@ == self@,
    {
        self.inner.as_str()
    }

    /// Whether the key's text equals the given string.
    pub fn equals_str(&self, other: &str) -> (r: bool)
        ensures
            r == (self@ == other@),
    {
        str_eq(self.inner.as_str(), other)
    }

    /// Whether the key starts with the given character.
    pub fn starts_with(&self, c: char) -> (r: bool)
        ensures
            r == (self@.len() > 0 && self@[0] == c),
    {
        if self.inner.as_str().unicode_len() == 0 {
            false
        } else {
            self.inner.as_str().get_char(0) == c
        }
    }
}

impl Clone for Key {
    fn clone(&self) -> (r: Key)
        ensures
            r == *self,
    {
        Key { inner: self.inner.clone() }
    }
}

impl PartialEq for Key {
    fn eq(&self, other: &Key) -> (r: bool) {
        self.inner == other.inner
    }
}

impl vstd::std_specs::cmp::PartialEqSpecImpl for Key {
    open spec fn obeys_eq_spec() -> bool {
        true
    }

    open spec fn eq_spec(&self, other: &Key) -> bool {
        self@ == other@
    }
}

impl Eq for Key {}

/// A non-empty sequence of keys naming one location in the table.
#[derive(Debug)]
pub struct Path {
    pub first: Key,
    pub rest: Vec<Key>,
}

impl View for Path {
    type V = Seq<Seq<char>>;

    open spec fn view(&self) -> Seq<Seq<char>> {
        seq![self.first@] + keys_view(self.rest@)
    }
}

impl Clone for Path {
    fn clone(&self) -> (r: Path)
        ensures
            r@ == self@,
    {
        let mut rest: Vec<Key> = Vec::new();
        let mut i: usize = 0;
        while i < self.rest.len()
            invariant
                i <= self.rest.len(),
                rest@.len() == i,
                forall|j: int| 0 <= j < i ==> rest@[j] == self.rest@[j],
            decreases self.rest.len() - i,
        {
            rest.push(self.rest[i].clone());
            i = i + 1;
        }
        proof {
            assert(keys_view(rest@) =~= keys_view(self.rest@));
        }
        Path { first: self.first.clone(), rest }
    }
}

impl PartialEq for Path {
    fn eq(&self, other: &Path) -> (r: bool) {
        if !(self.first == other.first) {
            proof {
                assert(self@[0] == self.first@);
                assert(other@[0] == other.first@);
            }
            return false;
        }
        if self.rest.len() != other.rest.len() {
            proof {
                assert(self@.len() != other@.len());
            }
            return false;
        }
        let mut i: usize = 0;
        while i < self.rest.len()
            invariant
                self.rest@.len() == other.rest@.len(),
                self.first@ == other.first@,
                i <= self.rest.len(),
                forall|j: int| 0 <= j < i ==> self.rest@[j]@ == other.rest@[j]@,
            decreases self.rest.len() - i,
        {
            if !(self.rest[i] == other.rest[i]) {
                proof {
                    assert(self@[i + 1] == self.rest@[i as int]@);
                    assert(other@[i + 1] == other.rest@[i as int]@);
                }
                return false;
            }
            i = i + 1;
        }
        proof {
            assert(self@ =~= other@);
        }
        true
    }
}

impl vstd::std_specs::cmp::PartialEqSpecImpl for Path {
    open spec fn obeys_eq_spec() -> bool {
        true
    }

    open spec fn eq_spec(&self, other: &Path) -> bool {
        self@ == other@
    }
}

impl Eq for Path {}

/// A path cannot be built from an empty key list.
#[derive(Clone, Copy, Debug, PartialEq, Eq, Structural)]
pub struct Empty;

impl Path {
    /// A path of a single key.
    pub fn of(first: Key) -> (p: Path)
        ensures
            p@ == seq![first@],
    {
        let p = Path { first, rest: Vec::new() };
        proof {
            assert(p@ =~= seq![p.first@]);
        }
        p
    }

    /// Appends a key at the end.
    pub fn push(&mut self, arg: Key)
        ensures
            final(self)@ == old(self)@.push(arg@),
    {
        let ghost before = self@;
        let ghost a = arg@;
        self.rest.push(arg);
        proof {
            assert(self@ =~= before.push(a));
        }
    }

    /// The keys of the path, first to last.
    pub fn into_vec(self) -> (r: Vec<Key>)
        ensures
            keys_view(r@) == self@,
    {
        let Path { first, mut rest } = self;
        let ghost before = seq![first@] + keys_view(rest@);
        rest.insert(0, first);
        proof {
            assert(keys_view(rest@) =~= before);
        }
        rest
    }

    /// A path made of the given keys; fails exactly on an empty list.
    pub fn from_vec(mut keys: Vec<Key>) -> (r: Result<Path, Empty>)
        ensures
            match r {
                Ok(p) => keys@.len() > 0 && p@ == keys_view(keys@),
                Err(_) => keys@.len() == 0,
            },
    {
        let ghost whole = keys_view(keys@);
        if keys.len() == 0 {
            Err(Empty)
        } else {
            let first = keys.remove(0);
            let p = Path { first, rest: keys };
            proof {
                assert(p@ =~= whole);
            }
            Ok(p)
        }
    }
}

/// The index of the first slash in `s`, or `s.len()` if there is none.
pub open spec fn first_slash(s: Seq<char>) -> int
    decreases s.len(),
{
    if s.len() == 0 {
        0
    } else if s[0] == '/' {
        0
    } else {
        1 + first_slash(s.drop_first())
    }
}

/// What `first_slash` returns: the position of the first slash, or the
/// length when no slash occurs.
pub proof fn lemma_first_slash(s: Seq<char>)
    ensures
        0 <= first_slash(s) <= s.len(),
        first_slash(s) < s.len() ==> s[first_slash(s)] == '/',
        forall|j: int| 0 <= j < first_slash(s) ==> s[j] != '/',
    decreases s.len(),
{
    if s.len() == 0 {
    } else if s[0] == '/' {
    } else {
        lemma_first_slash(s.drop_first());
        let i = first_slash(s);
        assert(i == 1 + first_slash(s.drop_first()));
        if i < s.len() {
            assert(s.drop_first()[i - 1] == s[i]);
        }
        assert forall|j: int| 0 <= j < i implies s[j] != '/' by {
            if j > 0 {
                assert(s.drop_first()[j - 1] == s[j]);
            }
        }
    }
}

/// The segments of `s`, split on slashes.  A string without slashes is a
/// single segment; each slash ends the segment before it, so segments
/// may be empty.
pub open spec fn split_slashes(s: Seq<char>) -> Seq<Seq<char>>
    decreases s.len(),
    via split_slashes_decreases
{
    let i = first_slash(s);
    if i >= s.len() {
        seq![s]
    } else {
        seq![s.take(i)] + split_slashes(s.skip(i + 1))
    }
}

#[via_fn]
proof fn split_slashes_decreases(s: Seq<char>) {
    lemma_first_slash(s);
}

/// The slash-delimited form of a key sequence: a slash before each
/// segment.
pub open spec fn join_slashes(p: Seq<Seq<char>>) -> Seq<char>
    decreases p.len(),
{
    if p.len() == 0 {
        Seq::empty()
    } else {
        seq!['/'] + p[0] + join_slashes(p.drop_first())
    }
}

/// Whether a segment contains no slash.
pub open spec fn no_slash(seg: Seq<char>) -> bool {
    forall|j: int| 0 <= j < seg.len() ==> seg[j] != '/'
}

/// A path view that the slash-delimited form can represent: non-empty,
/// with no slash inside any segment.
pub open spec fn wf_path_view(p: Seq<Seq<char>>) -> bool {
    p.len() > 0 && forall|i: int| 0 <= i < p.len() ==> no_slash(#[trigger] p[i])
}

/// What parsing a slash-delimited string yields, when it succeeds.
pub open spec fn spec_parse(s: Seq<char>) -> Option<Seq<Seq<char>>> {
    if s.len() > 0 && s[0] == '/' {
        Some(split_slashes(s.skip(1)))
    } else {
        None
    }
}

/// In a slash-free string the first slash is the end.
proof fn lemma_first_slash_none(s: Seq<char>)
    requires
        no_slash(s),
    ensures
        first_slash(s) == s.len(),
{
    lemma_first_slash(s);
    if first_slash(s) < s.len() {
        assert(s[first_slash(s)] == '/');
    }
}

/// The first slash of a slash-free prefix followed by a string starting
/// with a slash sits exactly at the end of the prefix.
proof fn lemma_first_slash_concat(a: Seq<char>, b: Seq<char>)
    requires
        no_slash(a),
        b.len() > 0,
        b[0] == '/',
    ensures
        first_slash(a + b) == a.len(),
    decreases a.len(),
{
    let s = a + b;
    if a.len() == 0 {
        assert(s =~= b);
    } else {
        assert(s[0] == a[0]);
        assert(s.len() > 0 && s[0] != '/');
        assert(first_slash(s) == 1 + first_slash(s.drop_first()));
        assert(s.drop_first() =~= a.drop_first() + b);
        assert(no_slash(a.drop_first())) by {
            assert forall|j: int| 0 <= j < a.drop_first().len() implies a.drop_first()[j]
                != '/' by {
                assert(a.drop_first()[j] == a[j + 1]);
            }
        }
        lemma_first_slash_concat(a.drop_first(), b);
    }
}

/// Splitting the slash-delimited form of a well-formed path (after its
/// leading slash) gives the path's segments back.
proof fn lemma_split_join(p: Seq<Seq<char>>)
    requires
        wf_path_view(p),
    ensures
        split_slashes(join_slashes(p).skip(1)) == p,
    decreases p.len(),
{
    let s = join_slashes(p).skip(1);
    assert(join_slashes(p) == seq!['/'] + p[0] + join_slashes(p.drop_first()));
    assert(s =~= p[0] + join_slashes(p.drop_first()));
    if p.len() == 1 {
        assert(join_slashes(p.drop_first()) == Seq::<char>::empty());
        assert(s =~= p[0]);
        lemma_first_slash_none(s);
        assert(split_slashes(s) =~= p);
    } else {
        let t = join_slashes(p.drop_first());
        assert(t == seq!['/'] + p.drop_first()[0] + join_slashes(p.drop_first().drop_first()));
        assert(t.len() > 0 && t[0] == '/');
        lemma_first_slash_concat(p[0], t);
        let i = first_slash(s);
        assert(i == p[0].len());
        assert(s.take(i) =~= p[0]);
        assert(s.skip(i + 1) =~= t.skip(1));
        assert(wf_path_view(p.drop_first())) by {
            assert forall|j: int| 0 <= j < p.drop_first().len() implies no_slash(
                #[trigger] p.drop_first()[j],
            ) by {
                assert(p.drop_first()[j] == p[j + 1]);
            }
        }
        lemma_split_join(p.drop_first());
        assert(split_slashes(s) =~= seq![s.take(i)] + split_slashes(s.skip(i + 1)));
        assert(split_slashes(s) =~= p);
    }
}

/// Round trip: parsing the slash-delimited form of a well-formed path
/// gives the path back.
pub proof fn lemma_parse_format_round_trip(p: Seq<Seq<char>>)
    requires
        wf_path_view(p),
    ensures
        spec_parse(join_slashes(p)) == Some(p),
{
    assert(join_slashes(p) == seq!['/'] + p[0] + join_slashes(p.drop_first()));
    assert(join_slashes(p).len() > 0 && join_slashes(p)[0] == '/');
    lemma_split_join(p);
}

/// Joining after appending one more segment appends a slash and the
/// segment.
proof fn lemma_join_push(q: Seq<Seq<char>>, x: Seq<char>)
    ensures
        join_slashes(q.push(x)) == join_slashes(q) + seq!['/'] + x,
    decreases q.len(),
{
    if q.len() == 0 {
        assert(q.push(x) =~= seq![x]);
        assert(join_slashes(q.push(x)) == seq!['/'] + x + join_slashes(
            q.push(x).drop_first(),
        ));
        assert(q.push(x).drop_first() =~= Seq::<Seq<char>>::empty());
        assert(join_slashes(q.push(x)) =~= join_slashes(q) + seq!['/'] + x);
    } else {
        assert(q.push(x).drop_first() =~= q.drop_first().push(x));
        lemma_join_push(q.drop_first(), x);
        assert(join_slashes(q.push(x)) == seq!['/'] + q[0] + join_slashes(
            q.drop_first().push(x),
        ));
        assert(join_slashes(q.push(x)) =~= join_slashes(q) + seq!['/'] + x);
    }
}

/// Whether a topic-name segment names a key: non-empty and not one of
/// the relative markers `.` and `..`.
pub open spec fn keeps_segment(seg: Seq<char>) -> bool {
    seg.len() > 0 && seg != seq!['.'] && seg != seq!['.', '.']
}

/// The key segments kept from a split topic name.
pub open spec fn filter_segments(segs: Seq<Seq<char>>) -> Seq<Seq<char>>
    decreases segs.len(),
{
    if segs.len() == 0 {
        Seq::empty()
    } else if keeps_segment(segs[0]) {
        seq![segs[0]] + filter_segments(segs.drop_first())
    } else {
        filter_segments(segs.drop_first())
    }
}

/// The keys named by a topic string: its slash-separated segments, with
/// empty segments and relative markers dropped.
pub open spec fn topic_segments(s: Seq<char>) -> Seq<Seq<char>> {
    filter_segments(split_slashes(s))
}

/// A topic name with no usable segment.
#[derive(Clone, Copy, Debug, PartialEq, Eq, Structural)]
pub enum KeyError {
    /// The topic names no key at all.
    Empty,
}

/// The path named by a wire topic string.  Segments are separated by
/// slashes; empty segments and the relative markers `.` and `..` are
/// ignored, and a topic without any remaining segment is rejected.
pub fn from_nt_path(topic: String) -> (r: Result<Path, KeyError>)
    ensures
        match r {
            Ok(p) => topic_segments(topic@).len() > 0 && p@ == topic_segments(topic@),
            Err(_) => topic_segments(topic@).len() == 0,
        },
{
    let s = topic.as_str();
    let n = s.unicode_len();
    let mut keys: Vec<Key> = Vec::new();
    let mut current = String::new();
    let mut i: usize = 0;
    proof {
        assert(current@ + s@.skip(0) =~= s@);
    }
    while i < n
        invariant
            0 <= i <= n,
            n == s@.len(),
            s@ == topic@,
            no_slash(current@),
            topic_segments(topic@) == keys_view(keys@) + filter_segments(
                split_slashes(current@ + s@.skip(i as int)),
            ),
        decreases n - i,
    {
        let c = s.get_char(i);
        let ghost u = s@.skip(i as int);
        proof {
            assert(u[0] == s@[i as int]);
            assert(u.drop_first() =~= s@.skip(i + 1));
        }
        if c == '/' {
            proof {
                lemma_first_slash_concat(current@, u);
                let w = current@ + u;
                assert(w.take(current@.len() as int) =~= current@);
                assert(w.skip(current@.len() as int + 1) =~= s@.skip(i + 1));
                assert(split_slashes(w) == seq![current@] + split_slashes(s@.skip(i + 1)));
                assert((seq![current@] + split_slashes(s@.skip(i + 1))).drop_first()
                    =~= split_slashes(s@.skip(i + 1)));
            }
            let ghost old_keys = keys@;
            let ghost old_cur = current@;
            let flushed = flush_segment(&mut keys, current);
            current = String::new();
            proof {
                assert(current@ + s@.skip(i + 1) =~= s@.skip(i + 1));
                let rest_split = split_slashes(s@.skip(i + 1));
                assert((seq![old_cur] + rest_split)[0] == old_cur);
                if flushed {
                    assert(filter_segments(seq![old_cur] + rest_split) == seq![old_cur]
                        + filter_segments(rest_split));
                    assert(keys_view(old_keys) + (seq![old_cur] + filter_segments(
                        rest_split,
                    )) =~= keys_view(keys@) + filter_segments(rest_split));
                } else {
                    assert(filter_segments(seq![old_cur] + rest_split) == filter_segments(
                        rest_split,
                    ));
                }
            }
        } else {
            let ghost old_current = current@;
            push_char(&mut current, c);
            proof {
                assert(current@ + s@.skip(i + 1) =~= old_current + u);
                assert forall|j: int| 0 <= j < current@.len() implies current@[j] != '/' by {
                    if j < old_current.len() {
                        assert(current@[j] == old_current[j]);
                    }
                }
            }
        }
        i = i + 1;
    }
    proof {
        assert(current@ + s@.skip(n as int) =~= current@);
        lemma_first_slash_none(current@);
        assert(split_slashes(current@) == seq![current@]);
        assert(seq![current@].drop_first() =~= Seq::<Seq<char>>::empty());
        assert(filter_segments(Seq::<Seq<char>>::empty()) == Seq::<Seq<char>>::empty());
    }
    let ghost old_keys = keys@;
    let ghost old_cur = current@;
    let flushed = flush_segment(&mut keys, current);
    proof {
        if flushed {
            assert(filter_segments(seq![old_cur]) == seq![old_cur] + filter_segments(
                Seq::<Seq<char>>::empty(),
            ));
            assert(keys_view(old_keys) + (seq![old_cur] + Seq::<Seq<char>>::empty())
                =~= keys_view(keys@));
        } else {
            assert(filter_segments(seq![old_cur]) == filter_segments(
                Seq::<Seq<char>>::empty(),
            ));
            assert(keys_view(old_keys) + Seq::<Seq<char>>::empty() =~= keys_view(keys@));
        }
        assert(topic_segments(topic@) == keys_view(keys@));
    }
    match Path::from_vec(keys) {
        Ok(p) => Ok(p),
        Err(_) => Err(KeyError::Empty),
    }
}

/// Appends the finished segment as a key if it names one.
fn flush_segment(keys: &mut Vec<Key>, segment: String) -> (kept: bool)
    ensures
        kept == keeps_segment(segment@),
        kept ==> keys_view(final(keys)@) == keys_view(old(keys)@).push(segment@),
        !kept ==> final(keys)@ == old(keys)@,
{
    let s = segment.as_str();
    let len = s.unicode_len();
    let keep: bool;
    if len == 0 {
        keep = false;
    } else if len == 1 && s.get_char(0) == '.' {
        proof {
            assert(segment@ =~= seq!['.']);
        }
        keep = false;
    } else if len == 2 && s.get_char(0) == '.' && s.get_char(1) == '.' {
        proof {
            assert(segment@ =~= seq!['.', '.']);
        }
        keep = false;
    } else {
        proof {
            if segment@ == seq!['.'] {
                assert(segment@.len() == 1 && segment@[0] == '.');
            }
            if segment@ == seq!['.', '.'] {
                assert(segment@.len() == 2 && segment@[0] == '.' && segment@[1] == '.');
            }
        }
        keep = true;
    }
    if keep {
        let ghost before = keys@;
        let ghost seg = segment@;
        keys.push(Key::new(segment));
        proof {
            assert(keys_view(keys@) =~= keys_view(before).push(seg));
        }
        true
    } else {
        false
    }
}

/// Failure to parse a slash-delimited string.
#[derive(Debug, PartialEq)]
pub enum PathError {
    /// The input was empty.
    Empty,
    /// The input did not start with a slash; it is carried back.
    ExpectedSlash(String),
}

/// The mathematical shape of a path parse failure.
#[verifier::ext_equal]
pub enum PathErrorV {
    Empty,
    ExpectedSlash(Seq<char>),
}

impl View for PathError {
    type V = PathErrorV;

    open spec fn view(&self) -> PathErrorV {
        match self {
            PathError::Empty => PathErrorV::Empty,
            PathError::ExpectedSlash(s) => PathErrorV::ExpectedSlash(s@),
        }
    }
}

/// The parse failure a string produces, when parsing it fails.
pub open spec fn spec_parse_error(s: Seq<char>) -> PathErrorV {
    if s.len() == 0 {
        PathErrorV::Empty
    } else {
        PathErrorV::ExpectedSlash(s)
    }
}

impl Path {
    /// The slash-delimited form: a slash before each key.
    pub fn format(&self) -> (r: String)
        ensures
            r@ == join_slashes(self@),
    {
        let mut out = String::new();
        let ghost empty_done: Seq<Seq<char>> = Seq::empty();
        proof {
            reveal_strlit("/");
        }
        out.append("/");
        out.append(self.first.as_str());
        proof {
            lemma_join_push(empty_done, self.first@);
            assert(join_slashes(empty_done) == Seq::<char>::empty());
            assert(out@ =~= join_slashes(seq![self.first@]));
            assert(seq![self.first@] =~= empty_done.push(self.first@));
        }
        let mut i: usize = 0;
        while i < self.rest.len()
            invariant
                i <= self.rest.len(),
                out@ == join_slashes(seq![self.first@] + keys_view(self.rest@.take(i as int))),
            decreases self.rest.len() - i,
        {
            let ghost done = seq![self.first@] + keys_view(self.rest@.take(i as int));
            proof {
                reveal_strlit("/");
            }
            out.append("/");
            out.append(self.rest[i].as_str());
            proof {
                lemma_join_push(done, self.rest@[i as int]@);
                assert(seq![self.first@] + keys_view(self.rest@.take(i + 1)) =~= done.push(
                    self.rest@[i as int]@,
                ));
                assert(out@ =~= join_slashes(done.push(self.rest@[i as int]@)));
            }
            i = i + 1;
        }
        proof {
            assert(self.rest@.take(self.rest@.len() as int) =~= self.rest@);
            assert(seq![self.first@] + keys_view(self.rest@) =~= self@);
        }
        out
    }

    /// Parses a slash-delimited string.  The input must start with a
    /// slash; the keys are the segments between slashes.
    pub fn parse(s: &str) -> (r: Result<Path, PathError>)
        ensures
            match r {
                Ok(p) => spec_parse(s@) == Some(p@),
                Err(PathError::Empty) => s@.len() == 0,
                Err(PathError::ExpectedSlash(t)) => s@.len() > 0 && s@[0] != '/' && t@
                    == s@,
            },
    {
        let n = s.unicode_len();
        if n == 0 {
            return Err(PathError::Empty);
        }
        if s.get_char(0) != '/' {
            return Err(PathError::ExpectedSlash(s.to_owned()));
        }
        let ghost t = s@.skip(1);
        let mut keys: Vec<Key> = Vec::new();
        let mut current = String::new();
        let mut i: usize = 1;
        proof {
            assert(current@ + t.skip(0) =~= t);
        }
        while i < n
            invariant
                1 <= i <= n,
                n == s@.len(),
                t == s@.skip(1),
                no_slash(current@),
                split_slashes(t) == keys_view(keys@) + split_slashes(
                    current@ + t.skip(i - 1),
                ),
            decreases n - i,
        {
            let c = s.get_char(i);
            let ghost u = t.skip(i - 1);
            proof {
                assert(u[0] == s@[i as int]);
                assert(u.drop_first() =~= t.skip(i as int));
            }
            if c == '/' {
                proof {
                    lemma_first_slash_concat(current@, u);
                    let w = current@ + u;
                    assert(w.take(current@.len() as int) =~= current@);
                    assert(w.skip(current@.len() as int + 1) =~= t.skip(i as int));
                    assert(split_slashes(w) == seq![current@] + split_slashes(
                        t.skip(i as int),
                    ));
                }
                let ghost old_keys = keys@;
                let ghost old_current = current@;
                keys.push(Key::new(current));
                current = String::new();
                proof {
                    assert(keys_view(keys@) =~= keys_view(old_keys).push(old_current));
                    assert(keys_view(old_keys) + (seq![old_current] + split_slashes(
                        t.skip(i as int),
                    )) =~= keys_view(keys@) + split_slashes(t.skip(i as int)));
                    assert(current@ + t.skip(i as int) =~= t.skip(i as int));
                }
            } else {
                let ghost old_current = current@;
                push_char(&mut current, c);
                proof {
                    assert(current@ + t.skip(i as int) =~= old_current + u);
                    assert forall|j: int| 0 <= j < current@.len() implies current@[j]
                        != '/' by {
                        if j < old_current.len() {
                            assert(current@[j] == old_current[j]);
                        }
                    }
                }
            }
            i = i + 1;
        }
        proof {
            assert(current@ + t.skip(n - 1) =~= current@);
            lemma_first_slash_none(current@);
            assert(split_slashes(current@) == seq![current@]);
        }
        let ghost old_keys = keys@;
        let ghost old_current = current@;
        keys.push(Key::new(current));
        proof {
            assert(keys_view(keys@) =~= keys_view(old_keys).push(old_current));
            assert(keys_view(old_keys) + seq![old_current] =~= keys_view(keys@));
            assert(split_slashes(t) == keys_view(keys@));
        }
        match Path::from_vec(keys) {
            Ok(p) => Ok(p),
            Err(_) => {
                proof {
                    assert(false);
                }
                Err(PathError::Empty)
            }
        }
    }
}

} // verus!
