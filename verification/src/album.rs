//! The record store: named decks of picture references, a remembered
//! last draw for one-step undo, and an optional provenance path that
//! governs whether the store may be saved.

use vstd::prelude::*;

use crate::chars::str_eq;
use crate::normalize::{name_eq, names_match};

verus! {

/// The hard failures an album operation can surface.
#[derive(Debug, PartialEq, Eq, Structural)]
pub enum ErrorKind {
    /// The album was never loaded from a file, so there is no place to
    /// save it to.
    NotSourced,
    /// A file could not be opened or written.
    IOError,
    /// A persisted document was malformed.
    ParseError,
}

impl ErrorKind {
    pub fn to_string(&self) -> (r: &'static str)
        ensures
            r@ == self.message(),
    {
        match self {
            ErrorKind::NotSourced => {
                "Album was not sourced from a file and cannot automatically be saved to one."
            },
            ErrorKind::IOError => "The album file could not be opened or written.",
            ErrorKind::ParseError => "The album file holds a malformed document.",
        }
    }

    pub open spec fn message(self) -> Seq<char> {
        match self {
            ErrorKind::NotSourced => {
                "Album was not sourced from a file and cannot automatically be saved to one."@
            },
            ErrorKind::IOError => "The album file could not be opened or written."@,
            ErrorKind::ParseError => "The album file holds a malformed document."@,
        }
    }
}

/// A deck key together with one picture reference; what a draw serves
/// and what undo removes.
pub struct Picture {
    pub deck: String,
    pub url: String,
}

impl Picture {
    pub open spec fn view(self) -> (Seq<char>, Seq<char>) {
        (self.deck@, self.url@)
    }
}

/// One named deck: a non-empty list of picture references, duplicates
/// allowed.
pub(crate) struct Deck {
    pub(crate) name: String,
    pub(crate) urls: Vec<String>,
}

/// The mathematical content of one deck.
#[verifier::ext_equal]
pub struct DeckView {
    pub name: Seq<char>,
    pub urls: Seq<Seq<char>>,
}

impl Deck {
    pub(crate) open spec fn view(self) -> DeckView {
        DeckView { name: self.name@, urls: Seq::new(self.urls@.len(), |i: int| self.urls@[i]@) }
    }
}

/// The mathematical content of a stored deck list.
pub(crate) open spec fn decks_view_of(ds: Seq<Deck>) -> Seq<DeckView> {
    Seq::new(ds.len(), |i: int| ds[i]@)
}

/// The mathematical content of a remembered last action.
pub open spec fn last_view_of(l: Option<Picture>) -> Option<(Seq<char>, Seq<char>)> {
    match l {
        Some(p) => Some((p.deck@, p.url@)),
        None => None,
    }
}

/// The mathematical content of an album.
#[verifier::ext_equal]
pub struct AlbumView {
    pub decks: Seq<DeckView>,
    pub last: Option<(Seq<char>, Seq<char>)>,
    pub source: Option<Seq<char>>,
}

/// Total number of picture references over a sequence of decks.
pub open spec fn pcount(decks: Seq<DeckView>) -> nat
    decreases decks.len(),
{
    if decks.len() == 0 {
        0
    } else {
        pcount(decks.drop_last()) + decks.last().urls.len()
    }
}

/// Index of the first deck whose stored name equals `name` exactly.
pub open spec fn find_exact(decks: Seq<DeckView>, name: Seq<char>) -> Option<int> {
    if exists|i: int| 0 <= i < decks.len() && decks[i].name == name {
        Some(first_exact_index(decks, name))
    } else {
        None
    }
}

/// The least index whose deck name equals `name` exactly.
pub open spec fn first_exact_index(decks: Seq<DeckView>, name: Seq<char>) -> int {
    choose|i: int|
        0 <= i < decks.len() && decks[i].name == name && (forall|j: int|
            0 <= j < i ==> decks[j].name != name)
}

/// Index of the first deck whose name matches `query` under
/// normalization.
pub open spec fn find_match(decks: Seq<DeckView>, query: Seq<char>) -> Option<int> {
    if exists|i: int| 0 <= i < decks.len() && names_match(decks[i].name, query) {
        Some(first_match_index(decks, query))
    } else {
        None
    }
}

/// The least index whose deck name matches `query` under
/// normalization.
pub open spec fn first_match_index(decks: Seq<DeckView>, query: Seq<char>) -> int {
    choose|i: int|
        0 <= i < decks.len() && names_match(decks[i].name, query) && (forall|j: int|
            0 <= j < i ==> !names_match(decks[j].name, query))
}

/// What holds of every stored deck list: deck names are distinct, and
/// no deck is ever empty — removing a deck's last reference removes
/// the deck itself.
pub open spec fn decks_wf(decks: Seq<DeckView>) -> bool {
    &&& forall|i: int, j: int| 0 <= i < j < decks.len() ==> decks[i].name != decks[j].name
    &&& forall|i: int| 0 <= i < decks.len() ==> decks[i].urls.len() > 0
}

impl AlbumView {
    /// The album's invariant: a well-formed deck list whose total
    /// picture count fits the machine.
    pub open spec fn wf(self) -> bool {
        &&& decks_wf(self.decks)
        &&& pcount(self.decks) <= usize::MAX
    }
}

/// The store: decks, the remembered last draw, and the provenance path
/// recorded when the album was loaded from a file.
pub struct Album {
    decks: Vec<Deck>,
    last_sent: Option<Picture>,
    source_file: Option<String>,
}

impl View for Album {
    type V = AlbumView;

    closed spec fn view(&self) -> AlbumView {
        AlbumView {
            decks: decks_view_of(self.decks@),
            last: last_view_of(self.last_sent),
            source: match self.source_file {
                Some(ref s) => Some(s@),
                None => None,
            },
        }
    }
}

impl Album {
    /// A fresh album: no decks, no remembered draw, no provenance.
    pub fn new() -> (r: Album)
        ensures
            r@.decks.len() == 0,
            r@.last is None,
            r@.source is None,
            r@.wf(),
    {
        let r = Album { decks: Vec::new(), last_sent: None, source_file: None };
        proof {
            assert(r@.decks =~= Seq::<DeckView>::empty());
        }
        r
    }

    /// How many decks the album holds.
    pub fn deck_count(&self) -> (r: usize)
        ensures
            r == self@.decks.len(),
    {
        self.decks.len()
    }

    /// Index of the first deck whose stored name equals `name` exactly.
    fn find_exact_idx(&self, name: &str) -> (r: Option<usize>)
        ensures
            r matches Some(i) ==> find_exact(self@.decks, name@) == Some(i as int) && i
                < self@.decks.len() && self@.decks[i as int].name == name@,
            r is None ==> find_exact(self@.decks, name@) is None,
    {
        let n = self.decks.len();
        let mut k: usize = 0;
        while k < n
            invariant
                n == self.decks.len(),
                k <= n,
                forall|j: int| 0 <= j < k ==> self@.decks[j].name != name@,
            decreases n - k,
        {
            if str_eq(self.decks[k].name.as_str(), name) {
                proof {
                    lemma_find_exact_at(self@.decks, name@, k as int);
                }
                return Some(k);
            }
            k += 1;
        }
        None
    }

    /// Index of the first deck whose name matches `query` under
    /// normalization.
    fn find_match_idx(&self, query: &str) -> (r: Option<usize>)
        ensures
            r matches Some(i) ==> find_match(self@.decks, query@) == Some(i as int) && i
                < self@.decks.len() && names_match(self@.decks[i as int].name, query@),
            r is None ==> find_match(self@.decks, query@) is None,
    {
        let n = self.decks.len();
        let mut k: usize = 0;
        while k < n
            invariant
                n == self.decks.len(),
                k <= n,
                forall|j: int| 0 <= j < k ==> !names_match(self@.decks[j].name, query@),
            decreases n - k,
        {
            if name_eq(self.decks[k].name.as_str(), query) {
                proof {
                    lemma_find_match_at(self@.decks, query@, k as int);
                }
                return Some(k);
            }
            k += 1;
        }
        None
    }

    /// Index of the first occurrence of `url` in deck `i`.
    fn find_url_idx(&self, i: usize, url: &str) -> (r: Option<usize>)
        requires
            i < self@.decks.len(),
        ensures
            r matches Some(k) ==> find_url(self@.decks[i as int].urls, url@) == Some(k as int) && k
                < self@.decks[i as int].urls.len() && self@.decks[i as int].urls[k as int] == url@,
            r is None ==> find_url(self@.decks[i as int].urls, url@) is None,
    {
        let urls = &self.decks[i].urls;
        let n = urls.len();
        let mut k: usize = 0;
        while k < n
            invariant
                urls == self.decks@[i as int].urls,
                i < self@.decks.len(),
                n == self@.decks[i as int].urls.len(),
                k <= n,
                forall|j: int| 0 <= j < k ==> self@.decks[i as int].urls[j] != url@,
            decreases n - k,
        {
            if str_eq(urls[k].as_str(), url) {
                proof {
                    lemma_find_url_at(self@.decks[i as int].urls, url@, k as int);
                }
                return Some(k);
            }
            k += 1;
        }
        None
    }

    /// Appends `picture_link` to the deck stored under exactly
    /// `deck_name`, creating the deck if absent. Duplicates are kept.
    pub fn add_picture(&mut self, deck_name: &str, picture_link: &str)
        requires
            old(self)@.wf(),
            pcount(old(self)@.decks) < usize::MAX,
        ensures
            final(self)@.wf(),
            final(self)@.decks == spec_add(old(self)@.decks, deck_name@, picture_link@),
            final(self)@.last == old(self)@.last,
            final(self)@.source == old(self)@.source,
            pcount(final(self)@.decks) == pcount(old(self)@.decks) + 1,
    {
        let ghost pre = self@.decks;
        match self.find_exact_idx(deck_name) {
            Some(i) => {
                let mut d = self.decks.remove(i);
                d.urls.push(picture_link.to_owned());
                self.decks.insert(i, d);
                proof {
                    let di = DeckView { name: pre[i as int].name, urls: pre[i as int].urls.push(picture_link@) };
                    assert(self@.decks =~~= pre.update(i as int, di));
                    lemma_pcount_update(pre, i as int, di);
                }
            },
            None => {
                let mut urls: Vec<String> = Vec::new();
                urls.push(picture_link.to_owned());
                self.decks.push(Deck { name: deck_name.to_owned(), urls });
                proof {
                    let d = DeckView { name: deck_name@, urls: seq![picture_link@] };
                    assert(self@.decks =~~= pre.push(d));
                    lemma_pcount_push(pre, d);
                }
            },
        }
    }

    /// Removes one instance of `url` from the deck stored under exactly
    /// `deck` (no normalization), deleting the deck if it becomes
    /// empty. Returns whether a removal occurred; an unknown deck or
    /// url is not an error.
    #[verifier::rlimit(50)]
    pub fn remove_picture(&mut self, deck: &str, url: &str) -> (r: bool)
        requires
            old(self)@.wf(),
        ensures
            final(self)@.wf(),
            r == spec_removes(old(self)@.decks, deck@, url@),
            final(self)@.decks == spec_remove(old(self)@.decks, deck@, url@),
            final(self)@.last == old(self)@.last,
            final(self)@.source == old(self)@.source,
            r ==> pcount(final(self)@.decks) + 1 == pcount(old(self)@.decks),
            !r ==> final(self)@.decks == old(self)@.decks,
    {
        let ghost pre = self@.decks;
        let i = match self.find_exact_idx(deck) {
            Some(i) => i,
            None => {
                return false;
            },
        };
        let k = match self.find_url_idx(i, url) {
            Some(k) => k,
            None => {
                return false;
            },
        };
        if self.decks[i].urls.len() == 1 {
            self.decks.remove(i);
            proof {
                assert(self@.decks =~~= pre.remove(i as int));
                lemma_pcount_remove(pre, i as int);
            }
        } else {
            let mut d = self.decks.remove(i);
            d.urls.remove(k);
            self.decks.insert(i, d);
            proof {
                let di = DeckView { name: pre[i as int].name, urls: pre[i as int].urls.remove(k as int) };
                assert(self@.decks =~~= pre.update(i as int, di));
                lemma_pcount_update(pre, i as int, di);
            }
        }
        true
    }

    /// Serves url `n` of deck `i` and remembers the draw under the
    /// canonical stored deck key, so that undo can remove it by exact
    /// match.
    fn record_and_pick(&mut self, i: usize, n: usize) -> (r: String)
        requires
            old(self)@.wf(),
            i < old(self)@.decks.len(),
            n < old(self)@.decks[i as int].urls.len(),
        ensures
            final(self)@.wf(),
            final(self)@.decks == old(self)@.decks,
            final(self)@.source == old(self)@.source,
            r@ == old(self)@.decks[i as int].urls[n as int],
            final(self)@.last == Some((old(self)@.decks[i as int].name, r@)),
    {
        let url = self.decks[i].urls[n].clone();
        let key = self.decks[i].name.clone();
        self.last_sent = Some(Picture { deck: key, url: url.clone() });
        proof {
            assert(self@.decks =~~= old(self)@.decks);
        }
        url
    }

    /// Draws a uniformly random picture from the first deck whose name
    /// matches `deck_name` under normalization, and remembers the draw
    /// for undo. Returns nothing when no deck matches.
    pub fn get_rand_pic(&mut self, deck_name: &str) -> (r: Option<String>)
        requires
            old(self)@.wf(),
        ensures
            final(self)@.wf(),
            final(self)@.decks == old(self)@.decks,
            final(self)@.source == old(self)@.source,
            match find_match(old(self)@.decks, deck_name@) {
                None => r is None && final(self)@.last == old(self)@.last && final(self)@
                    == old(self)@,
                Some(i) => r matches Some(url) && old(self)@.decks[i].urls.contains(url@)
                    && final(self)@.last == Some((old(self)@.decks[i].name, url@)),
            },
    {
        let i = match self.find_match_idx(deck_name) {
            Some(i) => i,
            None => {
                return None;
            },
        };
        let len = self.decks[i].urls.len();
        let n = rand_index(len);
        let url = self.record_and_pick(i, n);
        proof {
            assert(old(self)@.decks[i as int].urls[n as int] == url@);
        }
        Some(url)
    }

    /// The draw with an injected pick in place of the random source:
    /// serves url `pick % len` of the first matching deck. Everything
    /// else is as in `get_rand_pic`.
    pub fn get_pic_at(&mut self, deck_name: &str, pick: usize) -> (r: Option<String>)
        requires
            old(self)@.wf(),
        ensures
            final(self)@.wf(),
            final(self)@.decks == old(self)@.decks,
            final(self)@.source == old(self)@.source,
            match find_match(old(self)@.decks, deck_name@) {
                None => r is None && final(self)@.last == old(self)@.last && final(self)@
                    == old(self)@,
                Some(i) => {
                    let urls = old(self)@.decks[i].urls;
                    let url = urls[pick as int % urls.len() as int];
                    r matches Some(u) && u@ == url && final(self)@.last == Some(
                        (old(self)@.decks[i].name, url),
                    )
                },
            },
    {
        let i = match self.find_match_idx(deck_name) {
            Some(i) => i,
            None => {
                return None;
            },
        };
        let len = self.decks[i].urls.len();
        let n = pick % len;
        let url = self.record_and_pick(i, n);
        Some(url)
    }

    /// Reverses the most recent successful draw: removes that exact
    /// picture from that exact deck (a no-op if it is already gone),
    /// clears the memory, and returns the remembered pair. A second
    /// call in a row returns nothing.
    pub fn remove_last(&mut self) -> (r: Option<Picture>)
        requires
            old(self)@.wf(),
        ensures
            final(self)@.wf(),
            final(self)@.last is None,
            final(self)@.source == old(self)@.source,
            match old(self)@.last {
                None => r is None && final(self)@.decks == old(self)@.decks,
                Some(p) => r matches Some(q) && q@ == p && final(self)@.decks == spec_remove(
                    old(self)@.decks,
                    p.0,
                    p.1,
                ),
            },
            final(self)@ == spec_undo(old(self)@).0,
            (match r {
                Some(q) => Some(q@),
                None => None,
            }) == spec_undo(old(self)@).1,
    {
        match self.last_sent.take() {
            Some(p) => {
                self.remove_picture(p.deck.as_str(), p.url.as_str());
                proof {
                    assert(self@ =~~= spec_undo(old(self)@).0);
                }
                Some(p)
            },
            None => {
                proof {
                    assert(self@ =~~= spec_undo(old(self)@).0);
                }
                None
            },
        }
    }

    /// Total number of picture references over all decks.
    pub fn picture_count(&self) -> (r: usize)
        requires
            self@.wf(),
        ensures
            r == pcount(self@.decks),
    {
        let n = self.decks.len();
        let mut sum: usize = 0;
        let mut k: usize = 0;
        while k < n
            invariant
                self@.wf(),
                n == self@.decks.len(),
                k <= n,
                sum == pcount(self@.decks.take(k as int)),
            decreases n - k,
        {
            proof {
                let decks = self@.decks;
                assert(decks.take(k as int + 1) =~= decks.take(k as int).push(decks[k as int]));
                lemma_pcount_push(decks.take(k as int), decks[k as int]);
                assert(decks.take(k as int + 1) + decks.skip(k as int + 1) =~= decks);
                lemma_pcount_concat(decks.take(k as int + 1), decks.skip(k as int + 1));
            }
            sum = sum + self.decks[k].urls.len();
            k += 1;
        }
        proof {
            assert(self@.decks.take(n as int) =~= self@.decks);
        }
        sum
    }

    /// The stored deck keys, in storage order.
    pub fn deck_names(&self) -> (r: Vec<String>)
        ensures
            r@.len() == self@.decks.len(),
            forall|i: int| 0 <= i < r@.len() ==> r@[i]@ == self@.decks[i].name,
    {
        let n = self.decks.len();
        let mut out: Vec<String> = Vec::new();
        let mut k: usize = 0;
        while k < n
            invariant
                n == self.decks.len(),
                k <= n,
                out@.len() == k,
                forall|i: int| 0 <= i < k ==> out@[i]@ == self@.decks[i].name,
            decreases n - k,
        {
            out.push(self.decks[k].name.clone());
            k += 1;
        }
        out
    }

    /// Renders the album's persisted document, which holds the decks
    /// and the last-action record and never the provenance path. Fails
    /// when the album has no provenance: a freshly constructed album
    /// has no place to be saved to.
    pub fn save(&self) -> (r: Result<String, ErrorKind>)
        ensures
            r is Err <==> self@.source is None,
            r matches Err(e) ==> e == ErrorKind::NotSourced,
            r matches Ok(doc) ==> doc@ == crate::codec::enc_doc(self@.decks, self@.last),
    {
        match &self.source_file {
            None => Err(ErrorKind::NotSourced),
            Some(_) => Ok(crate::codec::render_document(&self.decks, &self.last_sent)),
        }
    }

    /// Rebuilds an album from a persisted document, recording `path`
    /// as its provenance. A malformed document, or one whose content
    /// breaks the store's invariant, is rejected.
    pub fn from_document(path: &str, doc: &str) -> (r: Result<Album, ErrorKind>)
        ensures
            match crate::codec::parse_document(doc@) {
                Some(parsed) => r matches Ok(a) && a@.wf() && a@.decks == parsed.0 && a@.last
                    == parsed.1 && a@.source == Some(path@),
                None => r matches Err(e) && e == ErrorKind::ParseError,
            },
    {
        match crate::codec::parse_document_exec(doc) {
            None => Err(ErrorKind::ParseError),
            Some((decks, last)) => Ok(
                Album { decks, last_sent: last, source_file: Some(path.to_owned()) },
            ),
        }
    }

    /// The provenance path, when the album was loaded from a file.
    pub fn source_path(&self) -> (r: Option<String>)
        ensures
            match self@.source {
                Some(s) => r matches Some(p) && p@ == s,
                None => r is None,
            },
    {
        match &self.source_file {
            Some(p) => Some(p.clone()),
            None => None,
        }
    }
}

/// The decks of the demonstration album.
pub open spec fn default_decks() -> Seq<DeckView> {
    seq![
        DeckView {
            name: "mood"@,
            urls: seq![
                "http://example.com/mood1.png"@,
                "http://example.com/mood2.png"@,
                "http://example.com/mood3.png"@,
            ],
        },
        DeckView { name: "tata"@, urls: seq!["http://example.com/tata.png"@] },
        DeckView {
            name: "riri"@,
            urls: seq!["http://example.com/riri1.png"@, "http://example.com/riri2.png"@],
        },
    ]
}

impl Default for Album {
    /// The demonstration album: three decks, six pictures, and the
    /// first "riri" picture remembered as the last draw.
    fn default() -> (r: Album)
        ensures
            r@.wf(),
            r@.decks == default_decks(),
            r@.last == Some(("riri"@, "http://example.com/riri1.png"@)),
            r@.source is None,
    {
        proof {
            reveal_strlit("mood");
            reveal_strlit("tata");
            reveal_strlit("riri");
        }
        let mut album = Album::new();
        album.add_picture("mood", "http://example.com/mood1.png");
        proof {
            assert(album@.decks =~~= default_decks().take(1).update(
                0,
                DeckView { name: "mood"@, urls: seq!["http://example.com/mood1.png"@] },
            ));
        }
        album.add_picture("mood", "http://example.com/mood2.png");
        album.add_picture("mood", "http://example.com/mood3.png");
        proof {
            assert(album@.decks =~~= default_decks().take(1));
        }
        album.add_picture("tata", "http://example.com/tata.png");
        proof {
            assert("mood"@ != "tata"@) by {
                assert("mood"@[0] != "tata"@[0]);
            }
            assert(album@.decks =~~= default_decks().take(2));
        }
        album.add_picture("riri", "http://example.com/riri1.png");
        album.add_picture("riri", "http://example.com/riri2.png");
        proof {
            assert("mood"@ != "riri"@) by {
                assert("mood"@[0] != "riri"@[0]);
            }
            assert("tata"@ != "riri"@) by {
                assert("tata"@[0] != "riri"@[0]);
            }
            assert(album@.decks =~~= default_decks());
        }
        album.last_sent = Some(
            Picture { deck: "riri".to_owned(), url: "http://example.com/riri1.png".to_owned() },
        );
        album
    }
}

/// Relies on rand::RngExt::random_range over the thread-local
/// generator: returns a uniformly random value of the non-empty range
/// `0..n`.
#[verifier::external_body]
fn rand_index(n: usize) -> (r: usize)
    requires
        n > 0,
    ensures
        r < n,
{
    rand::RngExt::random_range(&mut rand::rng(), 0..n)
}

/// A first witness pins `find_exact` down: if index `i` holds `name`
/// and no earlier index does, the search returns `i`.
proof fn lemma_find_exact_at(decks: Seq<DeckView>, name: Seq<char>, i: int)
    requires
        0 <= i < decks.len(),
        decks[i].name == name,
        forall|j: int| 0 <= j < i ==> decks[j].name != name,
    ensures
        find_exact(decks, name) == Some(i),
{
    let k = first_exact_index(decks, name);
    assert(0 <= k < decks.len() && decks[k].name == name && (forall|j: int|
        0 <= j < k ==> decks[j].name != name)) by {
        assert(0 <= i < decks.len() && decks[i].name == name && (forall|j: int|
            0 <= j < i ==> decks[j].name != name));
    }
    if k < i {
        assert(decks[k].name != name);
    }
    if i < k {
        assert(decks[i].name != name);
    }
}

/// A first witness pins `find_match` down in the same way.
proof fn lemma_find_match_at(decks: Seq<DeckView>, query: Seq<char>, i: int)
    requires
        0 <= i < decks.len(),
        names_match(decks[i].name, query),
        forall|j: int| 0 <= j < i ==> !names_match(decks[j].name, query),
    ensures
        find_match(decks, query) == Some(i),
{
    let k = first_match_index(decks, query);
    assert(0 <= k < decks.len() && names_match(decks[k].name, query) && (forall|j: int|
        0 <= j < k ==> !names_match(decks[j].name, query))) by {
        assert(0 <= i < decks.len() && names_match(decks[i].name, query) && (forall|j: int|
            0 <= j < i ==> !names_match(decks[j].name, query)));
    }
    if k < i {
        assert(!names_match(decks[k].name, query));
    }
    if i < k {
        assert(!names_match(decks[i].name, query));
    }
}

/// Index of the first occurrence of `url` in a deck's references.
pub open spec fn find_url(urls: Seq<Seq<char>>, url: Seq<char>) -> Option<int> {
    if exists|i: int| 0 <= i < urls.len() && urls[i] == url {
        Some(first_url_index(urls, url))
    } else {
        None
    }
}

/// The least index holding `url`.
pub open spec fn first_url_index(urls: Seq<Seq<char>>, url: Seq<char>) -> int {
    choose|i: int|
        0 <= i < urls.len() && urls[i] == url && (forall|j: int| 0 <= j < i ==> urls[j] != url)
}

/// The deck list after appending one reference: the first deck stored
/// under exactly `name` gains `url`; absent such a deck, a new one is
/// created at the end.
pub open spec fn spec_add(decks: Seq<DeckView>, name: Seq<char>, url: Seq<char>) -> Seq<
    DeckView,
> {
    match find_exact(decks, name) {
        Some(i) => decks.update(
            i,
            DeckView { name: decks[i].name, urls: decks[i].urls.push(url) },
        ),
        None => decks.push(DeckView { name: name, urls: seq![url] }),
    }
}

/// Whether removing (`name`, `url`) finds anything to remove: a deck
/// stored under exactly `name` holding at least one copy of `url`.
pub open spec fn spec_removes(decks: Seq<DeckView>, name: Seq<char>, url: Seq<char>) -> bool {
    match find_exact(decks, name) {
        Some(i) => find_url(decks[i].urls, url) is Some,
        None => false,
    }
}

/// The deck list after removing one instance of (`name`, `url`): the
/// first copy of `url` leaves the deck, and a deck emptied by that
/// leaves the list.
pub open spec fn spec_remove(decks: Seq<DeckView>, name: Seq<char>, url: Seq<char>) -> Seq<
    DeckView,
> {
    match find_exact(decks, name) {
        None => decks,
        Some(i) => match find_url(decks[i].urls, url) {
            None => decks,
            Some(k) => if decks[i].urls.len() == 1 {
                decks.remove(i)
            } else {
                decks.update(i, DeckView { name: decks[i].name, urls: decks[i].urls.remove(k) })
            },
        },
    }
}

/// The undo transition: how `remove_last` changes an album's content,
/// and what it returns. The remembered pair, when there is one, is
/// removed by exact match and the memory is cleared; otherwise nothing
/// changes.
pub open spec fn spec_undo(a: AlbumView) -> (AlbumView, Option<(Seq<char>, Seq<char>)>) {
    match a.last {
        None => (a, None),
        Some(p) => (
            AlbumView { decks: spec_remove(a.decks, p.0, p.1), last: None, source: a.source },
            Some(p),
        ),
    }
}

/// A first witness pins `find_url` down.
pub proof fn lemma_find_url_at(urls: Seq<Seq<char>>, url: Seq<char>, i: int)
    requires
        0 <= i < urls.len(),
        urls[i] == url,
        forall|j: int| 0 <= j < i ==> urls[j] != url,
    ensures
        find_url(urls, url) == Some(i),
{
    let k = first_url_index(urls, url);
    assert(0 <= k < urls.len() && urls[k] == url && (forall|j: int|
        0 <= j < k ==> urls[j] != url)) by {
        assert(0 <= i < urls.len() && urls[i] == url && (forall|j: int|
            0 <= j < i ==> urls[j] != url));
    }
    if k < i {
        assert(urls[k] != url);
    }
    if i < k {
        assert(urls[i] != url);
    }
}

/// Picture counts add up over concatenation.
pub proof fn lemma_pcount_concat(a: Seq<DeckView>, b: Seq<DeckView>)
    ensures
        pcount(a + b) == pcount(a) + pcount(b),
    decreases b.len(),
{
    if b.len() == 0 {
        assert(a + b =~= a);
    } else {
        lemma_pcount_concat(a, b.drop_last());
        assert((a + b).drop_last() =~= a + b.drop_last());
        assert((a + b).last() == b.last());
    }
}

/// One deck holds what `pcount` says of a singleton.
proof fn lemma_pcount_singleton(d: DeckView)
    ensures
        pcount(seq![d]) == d.urls.len(),
{
    assert(seq![d].drop_last() =~= Seq::<DeckView>::empty());
    assert(seq![d].last() == d);
    assert(pcount(Seq::<DeckView>::empty()) == 0);
}

/// Replacing one deck shifts the total by the difference of that deck.
pub proof fn lemma_pcount_update(decks: Seq<DeckView>, i: int, d: DeckView)
    requires
        0 <= i < decks.len(),
    ensures
        pcount(decks.update(i, d)) + decks[i].urls.len() == pcount(decks) + d.urls.len(),
{
    let pre = decks.take(i);
    let post = decks.skip(i + 1);
    assert(decks =~= pre + seq![decks[i]] + post);
    assert(decks.update(i, d) =~= pre + seq![d] + post);
    lemma_pcount_concat(pre + seq![decks[i]], post);
    lemma_pcount_concat(pre, seq![decks[i]]);
    lemma_pcount_concat(pre + seq![d], post);
    lemma_pcount_concat(pre, seq![d]);
    lemma_pcount_singleton(decks[i]);
    lemma_pcount_singleton(d);
}

/// Dropping one deck removes exactly that deck's references from the
/// total.
pub proof fn lemma_pcount_remove(decks: Seq<DeckView>, i: int)
    requires
        0 <= i < decks.len(),
    ensures
        pcount(decks.remove(i)) + decks[i].urls.len() == pcount(decks),
{
    let pre = decks.take(i);
    let post = decks.skip(i + 1);
    assert(decks =~= pre + seq![decks[i]] + post);
    assert(decks.remove(i) =~= pre + post);
    lemma_pcount_concat(pre + seq![decks[i]], post);
    lemma_pcount_concat(pre, seq![decks[i]]);
    lemma_pcount_concat(pre, post);
    lemma_pcount_singleton(decks[i]);
}

/// Appending one deck adds exactly that deck's references to the
/// total.
pub proof fn lemma_pcount_push(decks: Seq<DeckView>, d: DeckView)
    ensures
        pcount(decks.push(d)) == pcount(decks) + d.urls.len(),
{
    assert(decks.push(d).drop_last() =~= decks);
    assert(decks.push(d).last() == d);
}

/// Walks down from any matching index to the first one.
proof fn lemma_first_match_below(decks: Seq<DeckView>, query: Seq<char>, w: int)
    requires
        0 <= w < decks.len(),
        names_match(decks[w].name, query),
    ensures
        match find_match(decks, query) {
            Some(i) => 0 <= i < decks.len() && names_match(decks[i].name, query) && (forall|j: int|
                0 <= j < i ==> !names_match(decks[j].name, query)),
            None => false,
        },
    decreases w,
{
    if forall|j: int| 0 <= j < w ==> !names_match(decks[j].name, query) {
        lemma_find_match_at(decks, query, w);
    } else {
        let j = choose|j: int| 0 <= j < w && names_match(decks[j].name, query);
        lemma_first_match_below(decks, query, j);
    }
}

/// What `find_match` returns: the first matching index when one
/// exists, nothing otherwise.
pub proof fn lemma_find_match_props(decks: Seq<DeckView>, query: Seq<char>)
    ensures
        match find_match(decks, query) {
            Some(i) => 0 <= i < decks.len() && names_match(decks[i].name, query) && (forall|j: int|
                0 <= j < i ==> !names_match(decks[j].name, query)),
            None => forall|j: int| 0 <= j < decks.len() ==> !names_match(decks[j].name, query),
        },
{
    if exists|i: int| 0 <= i < decks.len() && names_match(decks[i].name, query) {
        let w = choose|i: int| 0 <= i < decks.len() && names_match(decks[i].name, query);
        lemma_first_match_below(decks, query, w);
    }
}

/// Walks down from any index holding `name` to the first one.
proof fn lemma_first_exact_below(decks: Seq<DeckView>, name: Seq<char>, w: int)
    requires
        0 <= w < decks.len(),
        decks[w].name == name,
    ensures
        match find_exact(decks, name) {
            Some(i) => 0 <= i < decks.len() && decks[i].name == name && (forall|j: int|
                0 <= j < i ==> decks[j].name != name),
            None => false,
        },
    decreases w,
{
    if forall|j: int| 0 <= j < w ==> decks[j].name != name {
        lemma_find_exact_at(decks, name, w);
    } else {
        let j = choose|j: int| 0 <= j < w && decks[j].name == name;
        lemma_first_exact_below(decks, name, j);
    }
}

/// What `find_exact` returns, in the same way.
pub proof fn lemma_find_exact_props(decks: Seq<DeckView>, name: Seq<char>)
    ensures
        match find_exact(decks, name) {
            Some(i) => 0 <= i < decks.len() && decks[i].name == name && (forall|j: int|
                0 <= j < i ==> decks[j].name != name),
            None => forall|j: int| 0 <= j < decks.len() ==> decks[j].name != name,
        },
{
    if exists|i: int| 0 <= i < decks.len() && decks[i].name == name {
        let w = choose|i: int| 0 <= i < decks.len() && decks[i].name == name;
        lemma_first_exact_below(decks, name, w);
    }
}

/// Walks down from any index holding `url` to the first one.
proof fn lemma_first_url_below(urls: Seq<Seq<char>>, url: Seq<char>, w: int)
    requires
        0 <= w < urls.len(),
        urls[w] == url,
    ensures
        match find_url(urls, url) {
            Some(k) => 0 <= k < urls.len() && urls[k] == url && (forall|j: int|
                0 <= j < k ==> urls[j] != url),
            None => false,
        },
    decreases w,
{
    if forall|j: int| 0 <= j < w ==> urls[j] != url {
        lemma_find_url_at(urls, url, w);
    } else {
        let j = choose|j: int| 0 <= j < w && urls[j] == url;
        lemma_first_url_below(urls, url, j);
    }
}

/// What `find_url` returns, in the same way.
pub proof fn lemma_find_url_props(urls: Seq<Seq<char>>, url: Seq<char>)
    ensures
        match find_url(urls, url) {
            Some(k) => 0 <= k < urls.len() && urls[k] == url && (forall|j: int|
                0 <= j < k ==> urls[j] != url),
            None => forall|j: int| 0 <= j < urls.len() ==> urls[j] != url,
        },
{
    if exists|i: int| 0 <= i < urls.len() && urls[i] == url {
        let w = choose|i: int| 0 <= i < urls.len() && urls[i] == url;
        lemma_first_url_below(urls, url, w);
    }
}

/// Two queries with the same canonical form select the same deck: a
/// draw is insensitive to case and diacritics in the query.
pub proof fn lemma_match_insensitive(decks: Seq<DeckView>, q1: Seq<char>, q2: Seq<char>)
    requires
        names_match(q1, q2),
    ensures
        find_match(decks, q1) == find_match(decks, q2),
{
    assert(forall|i: int|
        0 <= i < decks.len() ==> names_match(decks[i].name, q1) == names_match(
            decks[i].name,
            q2,
        ));
    lemma_find_match_props(decks, q1);
    lemma_find_match_props(decks, q2);
    match (find_match(decks, q1), find_match(decks, q2)) {
        (Some(i1), Some(i2)) => {
            if i1 < i2 {
                assert(!names_match(decks[i1].name, q2));
            }
            if i2 < i1 {
                assert(!names_match(decks[i2].name, q1));
            }
        },
        (Some(i1), None) => {
            assert(!names_match(decks[i1].name, q2));
        },
        (None, Some(i2)) => {
            assert(!names_match(decks[i2].name, q1));
        },
        (None, None) => {},
    }
}

/// Removing the sole remaining reference of a deck removes the deck
/// key itself: the deck count goes down by one and the name is gone.
pub proof fn lemma_remove_sole_reference(decks: Seq<DeckView>, i: int, url: Seq<char>)
    requires
        decks_wf(decks),
        0 <= i < decks.len(),
        decks[i].urls =~= seq![url],
    ensures
        spec_removes(decks, decks[i].name, url),
        spec_remove(decks, decks[i].name, url) == decks.remove(i),
        spec_remove(decks, decks[i].name, url).len() + 1 == decks.len(),
        find_exact(spec_remove(decks, decks[i].name, url), decks[i].name) is None,
        pcount(spec_remove(decks, decks[i].name, url)) + 1 == pcount(decks),
{
    let name = decks[i].name;
    assert(forall|j: int| 0 <= j < i ==> decks[j].name != name);
    lemma_find_exact_at(decks, name, i);
    lemma_find_url_at(decks[i].urls, url, 0);
    let rest = decks.remove(i);
    lemma_find_exact_props(rest, name);
    match find_exact(rest, name) {
        Some(k) => {
            if k < i {
                assert(decks[k].name == name);
            } else {
                assert(decks[k + 1].name == name);
            }
        },
        None => {},
    }
    lemma_pcount_remove(decks, i);
}

/// A pair recorded by a successful draw is genuinely present, so undo
/// removes exactly one picture: the total count goes down by one.
pub proof fn lemma_drawn_pair_removes(decks: Seq<DeckView>, i: int, n: int)
    requires
        decks_wf(decks),
        0 <= i < decks.len(),
        0 <= n < decks[i].urls.len(),
    ensures
        spec_removes(decks, decks[i].name, decks[i].urls[n]),
        pcount(spec_remove(decks, decks[i].name, decks[i].urls[n])) + 1 == pcount(decks),
{
    let name = decks[i].name;
    let url = decks[i].urls[n];
    assert(forall|j: int| 0 <= j < i ==> decks[j].name != name);
    lemma_find_exact_at(decks, name, i);
    lemma_find_url_props(decks[i].urls, url);
    if decks[i].urls.len() == 1 {
        lemma_pcount_remove(decks, i);
    } else {
        let k = find_url(decks[i].urls, url).unwrap();
        let d = DeckView { name: name, urls: decks[i].urls.remove(k) };
        lemma_pcount_update(decks, i, d);
    }
}

/// Undo after a draw removes exactly the drawn pair: a draw records
/// url `n` of deck `i` under the canonical stored key, and the undo
/// transition on that state returns the recorded pair, clears the
/// memory, and removes exactly one picture.
pub proof fn lemma_draw_then_undo(a: AlbumView, i: int, n: int)
    requires
        a.wf(),
        0 <= i < a.decks.len(),
        0 <= n < a.decks[i].urls.len(),
    ensures
        ({
            let drawn = AlbumView {
                decks: a.decks,
                last: Some((a.decks[i].name, a.decks[i].urls[n])),
                source: a.source,
            };
            let undone = spec_undo(drawn);
            &&& undone.1 == Some((a.decks[i].name, a.decks[i].urls[n]))
            &&& undone.0.last is None
            &&& pcount(undone.0.decks) + 1 == pcount(a.decks)
        }),
{
    lemma_drawn_pair_removes(a.decks, i, n);
}

/// Undo consumes its memory: a second undo in a row returns nothing
/// and changes nothing.
pub proof fn lemma_undo_twice(a: AlbumView)
    ensures
        a.last is Some ==> spec_undo(a).1 is Some,
        spec_undo(spec_undo(a).0).1 is None,
        spec_undo(spec_undo(a).0).0 == spec_undo(a).0,
{
}

} // verus!
