//! Splits a session description into an optional category and a subject at
//! the first occurrence of the separator `": "`.  This never fails: a
//! description without the separator is simply uncategorized.

use vstd::prelude::*;

verus! {

/// The view of an optional viewable value.
pub open spec fn opt_view<T: View>(o: Option<T>) -> Option<T::V> {
    match o {
        Some(v) => Some(v@),
        None => None,
    }
}

/// Whether the two-character separator `": "` occurs at position `i`.
pub open spec fn sep_at(s: Seq<char>, i: int) -> bool {
    0 <= i && i + 2 <= s.len() && s[i] == ':' && s[i + 1] == ' '
}

/// Whether position `i` is the first occurrence of the separator.
pub open spec fn first_sep(s: Seq<char>, i: int) -> bool {
    sep_at(s, i) && forall|j: int| 0 <= j < i ==> !sep_at(s, j)
}

/// The category of a description: the text before the first separator, or
/// nothing when the separator does not occur.
pub open spec fn category_text(s: Seq<char>) -> Option<Seq<char>> {
    if exists|i: int| first_sep(s, i) {
        Some(s.take(choose|i: int| first_sep(s, i)))
    } else {
        None
    }
}

/// The subject of a description: the text after the first separator, or the
/// whole text when the separator does not occur.
pub open spec fn subject_text(s: Seq<char>) -> Seq<char> {
    if exists|i: int| first_sep(s, i) {
        s.skip((choose|i: int| first_sep(s, i)) + 2)
    } else {
        s
    }
}

proof fn lemma_first_sep_unique(s: Seq<char>, i: int, j: int)
    requires
        first_sep(s, i),
        first_sep(s, j),
    ensures
        i == j,
{
    if i < j {
        assert(!sep_at(s, i));
    }
    if j < i {
        assert(!sep_at(s, j));
    }
}

/// A description split into its parts, borrowing from the original text.
pub struct Body<'a> {
    pub sub_project: Option<&'a str>,
    pub subject: &'a str,
}

/// A description split into its parts, holding owned copies.
pub struct OwnedBody {
    pub sub_project: Option<String>,
    pub subject: String,
}

/// An error splitting a description; the split is total, so no value of
/// this type is ever produced.
#[derive(Debug)]
pub struct ParseError;

/// A session together with its split description.
pub struct SessionWithBody<S> {
    pub session: S,
    pub body: OwnedBody,
}

impl<'a> Body<'a> {
    /// An owned copy of the split description.
    pub fn to_owned(&self) -> (r: OwnedBody)
        ensures
            opt_view(r.sub_project) == opt_view(self.sub_project),
            r.subject@ == self.subject@,
    {
        OwnedBody {
            sub_project: match self.sub_project {
                Some(s) => Some(s.to_owned()),
                None => None,
            },
            subject: self.subject.to_owned(),
        }
    }
}

/// Split a description at the first `": "` into category and subject; a
/// description without the separator yields no category and itself as the
/// subject.
pub fn parse<'a>(body_str: &'a str) -> (r: Result<Body<'a>, ParseError>)
    ensures
        r matches Ok(b) && opt_view(b.sub_project) == category_text(body_str@) && b.subject@
            == subject_text(body_str@),
{
    let n = body_str.unicode_len();
    let mut i: usize = 0;
    while i < n && i + 1 < n && !(body_str.get_char(i) == ':' && body_str.get_char(i + 1) == ' ')
        invariant
            n == body_str@.len(),
            i <= n,
            forall|j: int| 0 <= j < i ==> !sep_at(body_str@, j),
        decreases n - i,
    {
        i = i + 1;
    }
    if i < n && i + 1 < n {
        proof {
            assert(first_sep(body_str@, i as int));
            let k = choose|k: int| first_sep(body_str@, k);
            lemma_first_sep_unique(body_str@, i as int, k);
            assert(body_str@.take(i as int) =~= body_str@.subrange(0, i as int));
            assert(body_str@.skip(i + 2) =~= body_str@.subrange(i + 2, n as int));
        }
        Ok(
            Body {
                sub_project: Some(body_str.substring_char(0, i)),
                subject: body_str.substring_char(i + 2, n),
            },
        )
    } else {
        proof {
            assert(forall|j: int| !sep_at(body_str@, j) ==> !first_sep(body_str@, j));
            assert forall|j: int| !first_sep(body_str@, j) by {
                if sep_at(body_str@, j) {
                    assert(0 <= j < i);
                }
            }
        }
        Ok(Body { sub_project: None, subject: body_str })
    }
}

} // verus!
