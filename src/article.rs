//! The records kept for an article: a title and a bounded list of authors,
//! each text bounded in bytes as the fixed-size stored form requires.

use vstd::prelude::*;
use vstd::string::StringSliceAdditionalSpecFns;
use vstd::utf8::encode_utf8;

verus! {

/// Most bytes a title may hold.
pub const TITLE_TEXT_CAP: usize = 65535;

/// Most authors an article may list.
pub const AUTHORS_CAP: usize = 128;

/// Most bytes an author's name may hold.
pub const AUTHOR_TEXT_CAP: usize = 1024;

/// An article's title.
#[derive(Clone, Debug)]
pub struct Title {
    text: String,
}

impl View for Title {
    type V = Seq<char>;

    closed spec fn view(&self) -> Seq<char> {
        self.text@
    }
}

impl Title {
    /// The empty title.
    pub fn nil() -> (r: Title)
        ensures
            r@ == Seq::<char>::empty(),
    {
        Title { text: String::new() }
    }

    /// The title's text.
    pub fn to_str(&self) -> (r: &str)
        ensures
            r@ == self@,
    {
        self.text.as_str()
    }

    /// Replaces the text with `val`.
    pub fn set(&mut self, val: &str)
        requires
            val.spec_bytes().len() <= TITLE_TEXT_CAP,
        ensures
            final(self)@ == val@,
    {
        self.text = val.to_owned();
    }
}

/// One author's name.
#[derive(Clone, Debug)]
pub struct Author {
    name: String,
}

impl View for Author {
    type V = Seq<char>;

    closed spec fn view(&self) -> Seq<char> {
        self.name@
    }
}

impl Author {
    /// The empty name.
    pub fn nil() -> (r: Author)
        ensures
            r@ == Seq::<char>::empty(),
    {
        Author { name: String::new() }
    }

    /// The name's text.
    pub fn to_str(&self) -> (r: &str)
        ensures
            r@ == self@,
    {
        self.name.as_str()
    }

    /// Replaces the name with `val`.
    pub fn set(&mut self, val: &str)
        requires
            val.spec_bytes().len() <= AUTHOR_TEXT_CAP,
        ensures
            final(self)@ == val@,
    {
        self.name = val.to_owned();
    }
}

/// The authors of an article, in order, at most [`AUTHORS_CAP`] of them.
#[derive(Clone, Debug)]
pub struct Authors {
    arr: Vec<Author>,
}

impl View for Authors {
    type V = Seq<Seq<char>>;

    closed spec fn view(&self) -> Seq<Seq<char>> {
        Seq::new(self.arr@.len(), |i: int| self.arr@[i]@)
    }
}

impl Authors {
    /// No authors.
    pub fn nil() -> (r: Authors)
        ensures
            r@ == Seq::<Seq<char>>::empty(),
    {
        let r = Authors { arr: Vec::new() };
        assert(r@ =~= Seq::<Seq<char>>::empty());
        r
    }

    /// How many authors are listed.
    pub fn len(&self) -> (r: usize)
        ensures
            r == self@.len(),
    {
        self.arr.len()
    }

    /// The author at position `i`.
    pub fn get(&self, i: usize) -> (r: &Author)
        requires
            i < self@.len(),
        ensures
            r@ == self@[i as int],
    {
        &self.arr[i]
    }

    /// Appends an author.
    pub fn push(&mut self, author: &str)
        requires
            old(self)@.len() < AUTHORS_CAP,
            author.spec_bytes().len() <= AUTHOR_TEXT_CAP,
        ensures
            final(self)@ == old(self)@.push(author@),
    {
        let mut a = Author::nil();
        a.set(author);
        self.arr.push(a);
        assert(self@ =~= old(self)@.push(author@));
    }
}

/// What is stored for an article: its title and its authors.
#[derive(Clone, Debug)]
pub struct ArticleContent {
    pub title: Title,
    pub authors: Authors,
}

/// Every text in `v` fits in `cap` bytes.
pub open spec fn all_fit(v: Seq<String>, cap: nat) -> bool {
    forall|i: int| 0 <= i < v.len() ==> encode_utf8((#[trigger] v[i])@).len() <= cap
}

impl ArticleContent {
    /// The content with title `title` and the authors `authors`, in order.
    pub fn new(title: &str, authors: &[String]) -> (r: ArticleContent)
        requires
            title.spec_bytes().len() <= TITLE_TEXT_CAP,
            authors@.len() <= AUTHORS_CAP,
            all_fit(authors@, AUTHOR_TEXT_CAP as nat),
        ensures
            r.title@ == title@,
            r.authors@ == Seq::new(authors@.len(), |i: int| authors@[i]@),
    {
        let mut t = Title::nil();
        t.set(title);
        let mut a = Authors::nil();
        let mut i: usize = 0;
        while i < authors.len()
            invariant
                i <= authors@.len(),
                authors@.len() <= AUTHORS_CAP,
                all_fit(authors@, AUTHOR_TEXT_CAP as nat),
                a@ == Seq::new(i as nat, |j: int| authors@[j]@),
            decreases authors@.len() - i,
        {
            let s = authors[i].as_str();
            proof {
                assert(s.spec_bytes().len() <= AUTHOR_TEXT_CAP);
            }
            a.push(s);
            i = i + 1;
            assert(a@ =~= Seq::new(i as nat, |j: int| authors@[j]@));
        }
        ArticleContent { title: t, authors: a }
    }
}

} // verus!
