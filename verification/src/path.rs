//! Addresses in the workspace.
//!
//! An address is a sequence of names. Its text form writes the names one
//! after another with `/` between them; the empty text is the root.

use crate::error::StoreError;
use crate::order::{
    compare_names, lemma_lex_irreflexive, lemma_lex_total, lemma_lex_transitive,
    lemma_name_order_strict_total, lex_lt, lex_relation, name_order, strict_total, Relation,
};
use vstd::prelude::*;
use vstd::string::*;

verus! {

/// The character that separates two names in the text of an address.
pub open spec fn separator() -> char {
    '/'
}

/// A name that may stand in an address: not empty, without a separator, and
/// neither `.` nor `..`.
pub open spec fn valid_segment(s: Seq<char>) -> bool {
    &&& s.len() > 0
    &&& forall|i: int| 0 <= i < s.len() ==> s[i] != separator()
    &&& !(s.len() == 1 && s[0] == '.')
    &&& !(s.len() == 2 && s[0] == '.' && s[1] == '.')
}

/// Every name of the sequence may stand in an address.
pub open spec fn valid_path(p: Seq<Seq<char>>) -> bool {
    forall|i: int| 0 <= i < p.len() ==> valid_segment(#[trigger] p[i])
}

/// The pieces of `text` between its separators, in order. A text without a
/// separator is one piece, the empty text too.
pub open spec fn split(text: Seq<char>) -> Seq<Seq<char>>
    decreases text.len(),
{
    if text.len() == 0 {
        seq![Seq::empty()]
    } else {
        let before = split(text.drop_last());
        if text.last() == separator() {
            before.push(Seq::empty())
        } else {
            before.drop_last().push(before.last().push(text.last()))
        }
    }
}

/// The names of `segs`, written one after another with a separator between them.
pub open spec fn join(segs: Seq<Seq<char>>) -> Seq<char>
    decreases segs.len(),
{
    if segs.len() == 0 {
        Seq::empty()
    } else if segs.len() == 1 {
        segs[0]
    } else {
        join(segs.drop_last()).push(separator()) + segs.last()
    }
}

/// The text is the text of an address: it is empty, or none of its pieces
/// is empty, `.` or `..`.
pub open spec fn valid_text(text: Seq<char>) -> bool {
    text.len() == 0 || valid_path(split(text))
}

/// The address that `text` denotes, if it denotes one: the root for the empty
/// text, else the pieces of the text, if each is a valid name.
pub open spec fn parse_spec(text: Seq<char>) -> Option<Seq<Seq<char>>> {
    if text.len() == 0 {
        Some(Seq::empty())
    } else if valid_path(split(text)) {
        Some(split(text))
    } else {
        None
    }
}

/// `a` is `b` cut off after some of its names.
pub open spec fn is_prefix(a: Seq<Seq<char>>, b: Seq<Seq<char>>) -> bool {
    a.len() <= b.len() && b.take(a.len() as int) == a
}

/// A text has at least one piece.
pub proof fn lemma_split_len(text: Seq<char>)
    ensures
        split(text).len() >= 1,
    decreases text.len(),
{
    if text.len() > 0 {
        lemma_split_len(text.drop_last());
    }
}

/// No piece of a text holds a separator.
pub proof fn lemma_split_pieces(text: Seq<char>)
    ensures
        forall|k: int, i: int|
            0 <= k < split(text).len() && 0 <= i < split(text)[k].len() ==> split(text)[k][i]
                != separator(),
    decreases text.len(),
{
    if text.len() > 0 {
        lemma_split_len(text.drop_last());
        lemma_split_pieces(text.drop_last());
    }
}

/// Writing the pieces of a text with separators between them gives the text back.
pub proof fn lemma_join_split(text: Seq<char>)
    ensures
        join(split(text)) == text,
    decreases text.len(),
{
    if text.len() == 0 {
        assert(join(split(text)) =~= text);
    } else {
        let shorter = text.drop_last();
        let before = split(shorter);
        lemma_split_len(shorter);
        lemma_join_split(shorter);
        if text.last() == separator() {
            let segs = before.push(Seq::empty());
            assert(segs.drop_last() =~= before);
            assert(join(segs) =~= shorter.push(separator()));
        } else {
            let piece = before.last().push(text.last());
            let segs = before.drop_last().push(piece);
            assert(segs.drop_last() =~= before.drop_last());
            if before.len() == 1 {
                assert(join(segs) =~= shorter.push(text.last()));
            } else {
                assert(join(segs) =~= join(before).push(text.last()));
            }
        }
        assert(shorter.push(text.last()) =~= text);
    }
}

/// Appending characters other than the separator to a text lengthens its last piece.
pub proof fn lemma_split_append(text: Seq<char>, tail: Seq<char>)
    requires
        forall|i: int| 0 <= i < tail.len() ==> tail[i] != separator(),
    ensures
        split(text + tail) == split(text).drop_last().push(split(text).last() + tail),
    decreases tail.len(),
{
    lemma_split_len(text);
    if tail.len() == 0 {
        assert(text + tail =~= text);
        assert(split(text).last() + tail =~= split(text).last());
        assert(split(text).drop_last().push(split(text).last()) =~= split(text));
    } else {
        let shorter = tail.drop_last();
        lemma_split_append(text, shorter);
        assert((text + tail).drop_last() =~= text + shorter);
        assert((text + tail).last() == tail.last());
        let before = split(text + shorter);
        assert(before.last().push(tail.last()) =~= split(text).last() + tail);
        assert(before.drop_last() =~= split(text).drop_last());
    }
}

/// Splitting what was written from names without separators gives the names back.
pub proof fn lemma_split_join(segs: Seq<Seq<char>>)
    requires
        segs.len() >= 1,
        forall|k: int, i: int|
            0 <= k < segs.len() && 0 <= i < segs[k].len() ==> segs[k][i] != separator(),
    ensures
        split(join(segs)) == segs,
    decreases segs.len(),
{
    let empty = Seq::<char>::empty();
    if segs.len() == 1 {
        lemma_split_append(empty, segs[0]);
        assert(empty + segs[0] =~= segs[0]);
        assert(split(empty) =~= seq![empty]);
        assert(seq![empty].drop_last().push(empty + segs[0]) =~= segs);
    } else {
        let front = segs.drop_last();
        lemma_split_join(front);
        let head = join(front).push(separator());
        assert(head.drop_last() =~= join(front));
        assert(split(head) == front.push(empty));
        lemma_split_append(head, segs.last());
        assert(front.push(empty).drop_last() =~= front);
        assert(empty + segs.last() =~= segs.last());
        assert(front.push(segs.last()) =~= segs);
    }
}

/// The text of a valid address with at least one name is not empty.
pub proof fn lemma_join_nonempty(segs: Seq<Seq<char>>)
    requires
        segs.len() >= 1,
        segs.last().len() > 0,
    ensures
        join(segs).len() > 0,
{
}

/// Every text of an address parses, and no other text does; the text of the
/// address that was parsed is the text it was parsed from.
pub proof fn lemma_parse_then_text(text: Seq<char>)
    ensures
        parse_spec(text) is Some <==> valid_text(text),
        parse_spec(text) matches Some(p) ==> join(p) == text && valid_path(p),
{
    if text.len() == 0 {
        assert(join(Seq::<Seq<char>>::empty()) =~= text);
    } else {
        lemma_join_split(text);
    }
}

/// The text of every valid address parses to that address.
pub proof fn lemma_text_then_parse(segs: Seq<Seq<char>>)
    requires
        valid_path(segs),
    ensures
        parse_spec(join(segs)) == Some(segs),
{
    if segs.len() == 0 {
        assert(segs =~= Seq::empty());
    } else {
        lemma_split_join(segs);
        lemma_join_nonempty(segs);
    }
}

/// A sequence of names stays valid under `push` exactly if the new name is valid.
pub proof fn lemma_valid_path_push(p: Seq<Seq<char>>, s: Seq<char>)
    ensures
        valid_path(p.push(s)) == (valid_path(p) && valid_segment(s)),
{
    let q = p.push(s);
    if valid_path(q) {
        assert(valid_segment(q[p.len() as int]));
        assert forall|i: int| 0 <= i < p.len() implies valid_segment(#[trigger] p[i]) by {
            assert(q[i] == p[i]);
        }
    }
}

/// The names that a vector of strings holds.
pub open spec fn names(v: Seq<String>) -> Seq<Seq<char>> {
    Seq::new(v.len(), |i: int| v[i]@)
}

/// `a` comes before `b` in the order of addresses: name by name, a prefix
/// before what it is a prefix of.
pub open spec fn path_lt(a: Seq<Seq<char>>, b: Seq<Seq<char>>) -> bool {
    lex_lt(name_order(), a, b)
}

/// The order of addresses, as a relation on them.
pub open spec fn path_order() -> spec_fn(Seq<Seq<char>>, Seq<Seq<char>>) -> bool {
    |a: Seq<Seq<char>>, b: Seq<Seq<char>>| path_lt(a, b)
}

/// The order of addresses is a strict total order.
pub proof fn lemma_path_order_strict_total()
    ensures
        strict_total(path_order()),
{
    lemma_name_order_strict_total();
    assert forall|a: Seq<Seq<char>>| !#[trigger] path_order()(a, a) by {
        lemma_lex_irreflexive(name_order(), a);
    }
    assert forall|a: Seq<Seq<char>>, b: Seq<Seq<char>>, c: Seq<Seq<char>>|
        #[trigger] path_order()(a, b) && #[trigger] path_order()(b, c) implies path_order()(
        a,
        c,
    ) by {
        lemma_lex_transitive(name_order(), a, b, c);
    }
    assert forall|a: Seq<Seq<char>>, b: Seq<Seq<char>>| a != b implies #[trigger] path_order()(a, b)
        || path_order()(b, a) by {
        lemma_lex_total(name_order(), a, b);
    }
}

/// An address comes after each of its proper prefixes.
pub proof fn lemma_prefix_comes_first(a: Seq<Seq<char>>, b: Seq<Seq<char>>)
    requires
        is_prefix(a, b),
        a != b,
    ensures
        path_lt(a, b),
    decreases a.len(),
{
    if a.len() == 0 {
        assert(b.len() > 0) by {
            if b.len() == 0 {
                assert(a =~= b);
            }
        }
    } else {
        assert(b.take(a.len() as int)[0] == a[0]);
        assert(b.drop_first().take(a.len() - 1) =~= b.take(a.len() as int).drop_first());
        if a.drop_first() == b.drop_first() {
            assert(a =~= seq![a[0]] + a.drop_first());
            assert(b =~= seq![b[0]] + b.drop_first());
        }
        lemma_prefix_comes_first(a.drop_first(), b.drop_first());
    }
}

/// Tells whether `s` may stand as a name in an address.
pub fn check_segment(s: &str) -> (r: bool)
    ensures
        r == valid_segment(s@),
{
    let n = s.unicode_len();
    let mut i: usize = 0;
    let mut clean = true;
    let mut dots = true;
    for c in it: s.chars()
        invariant
            it.seq() == s@,
            n == s@.len(),
            i == it.index(),
            i <= n,
            clean == (forall|j: int| 0 <= j < i ==> s@[j] != separator()),
            dots == (forall|j: int| 0 <= j < i ==> s@[j] == '.'),
    {
        if c == '/' {
            clean = false;
        }
        if c != '.' {
            dots = false;
        }
        i = i + 1;
    }
    n > 0 && clean && !(dots && n <= 2)
}

/// An address in the workspace: the names on the way from the root to a
/// node. The root itself has no names. Every name is a valid segment.
///
/// `==` and `<` compare as `same` and `compare` do.
#[derive(Debug, PartialEq, Eq, PartialOrd, Ord, Hash)]
pub struct PathKey {
    segments: Vec<String>,
}

impl View for PathKey {
    type V = Seq<Seq<char>>;

    closed spec fn view(&self) -> Seq<Seq<char>> {
        names(self.segments@)
    }
}

impl Clone for PathKey {
    fn clone(&self) -> (r: Self)
        ensures
            r@ == self@,
    {
        proof {
            use_type_invariant(self);
        }
        let mut segments: Vec<String> = Vec::new();
        let mut i: usize = 0;
        while i < self.segments.len()
            invariant
                i <= self.segments.len(),
                segments.len() == i,
                forall|j: int| 0 <= j < i ==> segments[j]@ == self.segments[j]@,
            decreases self.segments.len() - i,
        {
            segments.push(self.segments[i].clone());
            i = i + 1;
        }
        assert(names(segments@) =~= names(self.segments@));
        PathKey { segments }
    }
}

impl Default for PathKey {
    /// The address of the root.
    fn default() -> (r: Self)
        ensures
            r@ == Seq::<Seq<char>>::empty(),
    {
        PathKey::root()
    }
}

impl PathKey {
    #[verifier::type_invariant]
    spec fn well_formed(&self) -> bool {
        valid_path(names(self.segments@))
    }

    /// The address of the root.
    pub fn root() -> (r: PathKey)
        ensures
            r@ == Seq::<Seq<char>>::empty(),
    {
        let r = PathKey { segments: Vec::new() };
        assert(r@ =~= Seq::<Seq<char>>::empty());
        r
    }

    /// Reads an address from its text. The empty text is the root; any other
    /// text is cut at its separators, and is an address if every piece is a
    /// valid name.
    pub fn parse(text: &str) -> (r: Result<PathKey, StoreError>)
        ensures
            match r {
                Ok(p) => valid_text(text@) && parse_spec(text@) == Some(p@) && valid_path(p@)
                    && join(p@) == text@,
                Err(e) => e == StoreError::InvalidPath && !valid_text(text@),
            },
    {
        let n = text.unicode_len();
        let mut segments: Vec<String> = Vec::new();
        if n == 0 {
            let p = PathKey { segments };
            proof {
                assert(p@ =~= Seq::<Seq<char>>::empty());
                lemma_parse_then_text(text@);
            }
            return Ok(p);
        }
        let mut start: usize = 0;
        let mut i: usize = 0;
        let mut good = true;
        proof {
            assert(text@.take(0) =~= Seq::<char>::empty());
            assert(text@.subrange(0, 0) =~= Seq::<char>::empty());
            assert(names(segments@) =~= Seq::<Seq<char>>::empty());
            assert(Seq::<Seq<char>>::empty().push(Seq::<char>::empty()) =~= seq![
                Seq::<char>::empty(),
            ]);
        }
        for c in it: text.chars()
            invariant
                it.seq() == text@,
                n == text@.len(),
                i == it.index(),
                start <= i <= n,
                split(text@.take(i as int)) == names(segments@).push(
                    text@.subrange(start as int, i as int),
                ),
                good == valid_path(names(segments@)),
        {
            let ghost done = names(segments@);
            let ghost piece = text@.subrange(start as int, i as int);
            proof {
                assert(text@.take(i + 1).drop_last() =~= text@.take(i as int));
                assert(text@.take(i + 1).last() == c);
            }
            if c == '/' {
                let seg = text.substring_char(start, i);
                if !check_segment(seg) {
                    good = false;
                }
                segments.push(seg.to_owned());
                start = i + 1;
                proof {
                    assert(names(segments@) =~= done.push(piece));
                    lemma_valid_path_push(done, piece);
                    assert(text@.subrange(start as int, i + 1) =~= Seq::<char>::empty());
                }
            } else {
                proof {
                    assert(done.push(piece).drop_last() =~= done);
                    assert(text@.subrange(start as int, i + 1) =~= piece.push(c));
                }
            }
            i = i + 1;
        }
        let ghost done = names(segments@);
        let seg = text.substring_char(start, n);
        if !check_segment(seg) {
            good = false;
        }
        segments.push(seg.to_owned());
        proof {
            assert(text@.take(n as int) =~= text@);
            assert(names(segments@) =~= done.push(seg@));
            lemma_valid_path_push(done, seg@);
        }
        if good {
            let p = PathKey { segments };
            proof {
                lemma_parse_then_text(text@);
            }
            Ok(p)
        } else {
            Err(StoreError::InvalidPath)
        }
    }

    /// The text of the address; `parse` reads it back to the same address.
    pub fn to_string(&self) -> (r: String)
        ensures
            r@ == join(self@),
            parse_spec(r@) == Some(self@),
    {
        proof {
            use_type_invariant(self);
            reveal_strlit("/");
            lemma_text_then_parse(self@);
        }
        let mut out = String::new();
        let mut i: usize = 0;
        while i < self.segments.len()
            invariant
                i <= self.segments.len(),
                out@ == join(self@.take(i as int)),
                "/"@ == seq![separator()],
            decreases self.segments.len() - i,
        {
            if i > 0 {
                out.append("/");
            }
            out.append(self.segments[i].as_str());
            proof {
                let now = self@.take(i + 1);
                assert(now.drop_last() =~= self@.take(i as int));
                assert(now.last() == self.segments[i as int]@);
                if i > 0 {
                    assert(join(self@.take(i as int)) + seq![separator()] =~= join(
                        self@.take(i as int),
                    ).push(separator()));
                } else {
                    assert(Seq::<char>::empty() + now[0] =~= now[0]);
                }
            }
            i = i + 1;
        }
        proof {
            assert(self@.take(self.segments.len() as int) =~= self@);
        }
        out
    }

    /// The number of names in the address.
    pub fn len(&self) -> (n: usize)
        ensures
            n == self@.len(),
    {
        self.segments.len()
    }

    /// Tells whether the address is the root.
    pub fn is_root(&self) -> (r: bool)
        ensures
            r == (self@.len() == 0),
    {
        self.segments.len() == 0
    }

    /// The name at position `i`, counted from the root.
    pub fn segment(&self, i: usize) -> (s: &String)
        requires
            i < self@.len(),
        ensures
            s@ == self@[i as int],
            valid_segment(s@),
    {
        proof {
            use_type_invariant(self);
            assert(names(self.segments@)[i as int] == self.segments[i as int]@);
        }
        &self.segments[i]
    }

    /// The address of the node named `segment` under this one.
    pub fn join(&self, segment: &str) -> (r: Result<PathKey, StoreError>)
        ensures
            match r {
                Ok(p) => valid_segment(segment@) && p@ == self@.push(segment@) && valid_path(p@),
                Err(e) => e == StoreError::InvalidPath && !valid_segment(segment@),
            },
    {
        proof {
            use_type_invariant(self);
        }
        if !check_segment(segment) {
            return Err(StoreError::InvalidPath);
        }
        let mut segments = self.clone().into_segments();
        segments.push(segment.to_owned());
        proof {
            assert(names(segments@) =~= self@.push(segment@));
            lemma_valid_path_push(self@, segment@);
        }
        Ok(PathKey { segments })
    }

    fn into_segments(self) -> (v: Vec<String>)
        ensures
            names(v@) == self@,
            valid_path(self@),
    {
        proof {
            use_type_invariant(&self);
        }
        self.segments
    }

    /// The address one step nearer to the root; the root has none.
    pub fn parent(&self) -> (r: Option<PathKey>)
        ensures
            match r {
                Some(p) => self@.len() > 0 && p@ == self@.drop_last() && valid_path(p@),
                None => self@.len() == 0,
            },
    {
        if self.segments.len() == 0 {
            return None;
        }
        let mut segments = self.clone().into_segments();
        segments.pop();
        proof {
            assert(names(segments@) =~= self@.drop_last());
            assert forall|i: int| 0 <= i < self@.drop_last().len() implies valid_segment(
                #[trigger] self@.drop_last()[i],
            ) by {
                assert(self@.drop_last()[i] == self@[i]);
            }
        }
        Some(PathKey { segments })
    }

    /// The last name of the address; the root has none.
    pub fn file_name(&self) -> (r: Option<String>)
        ensures
            match r {
                Some(s) => self@.len() > 0 && s@ == self@.last(),
                None => self@.len() == 0,
            },
    {
        if self.segments.len() == 0 {
            None
        } else {
            Some(self.segments[self.segments.len() - 1].clone())
        }
    }

    /// Tells whether both addresses have the same names.
    pub fn same(&self, other: &PathKey) -> (r: bool)
        ensures
            r == (self@ == other@),
    {
        match self.compare(other) {
            Relation::Equal => true,
            _ => false,
        }
    }

    /// Compares two addresses name by name; an address comes after each of
    /// its prefixes.
    pub fn compare(&self, other: &PathKey) -> (r: Relation)
        ensures
            r == lex_relation(name_order(), self@, other@),
    {
        let mut i: usize = 0;
        proof {
            assert(self@.skip(0) =~= self@);
            assert(other@.skip(0) =~= other@);
            assert(self@.take(0) =~= other@.take(0));
        }
        while i < self.segments.len() && i < other.segments.len()
            invariant
                i <= self@.len(),
                i <= other@.len(),
                self@.take(i as int) == other@.take(i as int),
                lex_lt(name_order(), self@, other@) == lex_lt(
                    name_order(),
                    self@.skip(i as int),
                    other@.skip(i as int),
                ),
            decreases self.segments.len() - i,
        {
            let x = &self.segments[i];
            let y = &other.segments[i];
            proof {
                assert(self@.skip(i as int)[0] == x@);
                assert(other@.skip(i as int)[0] == y@);
                assert(self@.skip(i as int).drop_first() =~= self@.skip(i + 1));
                assert(other@.skip(i as int).drop_first() =~= other@.skip(i + 1));
            }
            match compare_names(x.as_str(), y.as_str()) {
                Relation::Less => {
                    assert(self@[i as int] != other@[i as int]);
                    return Relation::Less;
                },
                Relation::Greater => {
                    assert(self@[i as int] != other@[i as int]);
                    return Relation::Greater;
                },
                Relation::Equal => {},
            }
            proof {
                assert(self@.take(i + 1) =~= self@.take(i as int).push(x@));
                assert(other@.take(i + 1) =~= other@.take(i as int).push(y@));
            }
            i = i + 1;
        }
        proof {
            assert(self@.take(self@.len() as int) =~= self@);
            assert(other@.take(other@.len() as int) =~= other@);
        }
        if i < other.segments.len() {
            assert(self@ != other@);
            Relation::Less
        } else if i < self.segments.len() {
            assert(self@ != other@);
            Relation::Greater
        } else {
            Relation::Equal
        }
    }
}

} // verus!
