//! What a request to change the tag collection or a word's tags may do: which
//! requests are refused and why, what a new tag is stored as, which key an
//! application is stored under, how a stored rating is clamped, how a scope change
//! moves the existing applications, and how a drag-drop layout is numbered.

use vstd::prelude::*;
use crate::tags::{
    ancestor, interest_ok, is_ancestor, norm_kind, sanitize_section, sanitize_tag, sanitized,
    scope_ok, section_label, tag_allowed, tag_ok, valid_interest, valid_scope,
};
use crate::text::{starts_with, str_eq, str_starts_with, string_of, trim, trim_str};

verus! {

/// Why a tag request was refused.
#[derive(Debug)]
pub enum TagError {
    /// Not a pick tag nor a canonical collection name.
    InvalidTag,
    /// A negative rating.
    InvalidValue,
    /// A name that does not sanitize (or, where it must already be one, is not canonical).
    InvalidName,
    InvalidScope,
    InvalidInterest,
    /// The quick star can't be renamed.
    StarRename,
    /// The quick star can't be deleted.
    StarDelete,
    /// The quick star stays interesting.
    StarInterest,
    /// The quick star can't be a scale.
    StarScale,
    /// Renaming a tag into its own subtree.
    UnderItself,
}

/// Applying or clearing a tag on a word needs a usable tag.
pub fn check_set_tag(tag: &str) -> (r: Result<(), TagError>)
    ensures
        r is Ok <==> tag_ok(tag@),
        r is Err ==> r matches Err(TagError::InvalidTag),
{
    if tag_allowed(tag) {
        Ok(())
    } else {
        Err(TagError::InvalidTag)
    }
}

/// A tag being turned on that isn't a pick tag is registered first (with its
/// ancestors), so that its scope exists.
pub fn registers(tag: &str, on: bool) -> (b: bool)
    ensures
        b == (on && !starts_with(tag@, "pick:"@)),
{
    on && !str_starts_with(tag, "pick:")
}

/// Setting a tri-state value needs a usable tag and no negative rating.
pub fn check_tag_value(tag: &str, value: Option<i32>) -> (r: Result<(), TagError>)
    ensures
        !tag_ok(tag@) ==> r matches Err(TagError::InvalidTag),
        tag_ok(tag@) && (value matches Some(v) && v < 0) ==> r matches Err(TagError::InvalidValue),
        r is Ok <==> tag_ok(tag@) && !(value matches Some(v) && v < 0),
{
    if !tag_allowed(tag) {
        return Err(TagError::InvalidTag);
    }
    match value {
        Some(v) => if v < 0 {
            Err(TagError::InvalidValue)
        } else {
            Ok(())
        },
        None => Ok(()),
    }
}

/// The stored rating: 0 stays 0; a pick tag is on (1); any other positive level
/// is capped at the tag's scale ceiling (1 when the tag has none).
pub open spec fn clamped(value: Option<i32>, is_pick: bool, scale_max: Option<i64>) -> Option<i32> {
    match value {
        Some(v) => Some(
            if v <= 0 {
                if v < 0 { 0 } else { v }
            } else if is_pick {
                1
            } else {
                let m: i64 = match scale_max {
                    Some(m) => if m < 1 { 1 } else { m },
                    None => 1,
                };
                let cap = m as i32;
                if v < cap { v } else { cap }
            },
        ),
        None => None,
    }
}

pub fn clamp_value(value: Option<i32>, is_pick: bool, scale_max: Option<i64>) -> (r: Option<i32>)
    ensures
        r == clamped(value, is_pick, scale_max),
{
    match value {
        Some(v) => {
            if v <= 0 {
                Some(if v < 0 { 0 } else { v })
            } else if is_pick {
                Some(1)
            } else {
                let m: i64 = match scale_max {
                    Some(m) => if m < 1 { 1 } else { m },
                    None => 1,
                };
                #[verifier::truncate]
                let cap = m as i32;
                Some(if v < cap { v } else { cap })
            }
        },
        None => None,
    }
}

/// The `book_slug` an application is stored under: the global '*' for a
/// word-scoped tag, the book's own slug otherwise. Pick tags are book-scoped; a
/// tag with no stored scope counts as book-scoped.
pub open spec fn key_slug_of(tag: Seq<char>, stored_scope: Option<Seq<char>>, slug: Seq<char>) -> Seq<char> {
    let scope = if starts_with(tag, "pick:"@) {
        "book"@
    } else {
        match stored_scope {
            Some(s) => s,
            None => "book"@,
        }
    };
    if scope == "word"@ {
        "*"@
    } else {
        slug
    }
}

pub fn key_slug(tag: &str, stored_scope: Option<String>, slug: String) -> (r: String)
    ensures
        r@ == key_slug_of(tag@, match stored_scope {
            Some(s) => Some(s@),
            None => None,
        }, slug@),
{
    let word_scoped = if str_starts_with(tag, "pick:") {
        false
    } else {
        match &stored_scope {
            Some(s) => str_eq(s.as_str(), "word"),
            None => false,
        }
    };
    proof {
        reveal_strlit("book");
        reveal_strlit("word");
        assert("book"@[0] != "word"@[0]);
    }
    if word_scoped {
        "*".to_owned()
    } else {
        slug
    }
}

/// A comment as stored: trimmed, and absent when nothing is left.
pub open spec fn comment_of(c: Seq<char>) -> Option<Seq<char>> {
    if trim(c).len() == 0 {
        None
    } else {
        Some(trim(c))
    }
}

fn stored_comment(comment: &str) -> (r: Option<String>)
    ensures
        match r {
            Some(s) => comment_of(comment@) == Some(s@),
            None => comment_of(comment@) is None,
        },
{
    let t = trim_str(comment);
    if t.len() == 0 {
        None
    } else {
        Some(string_of(&t))
    }
}

/// A tag to add to the collection.
pub struct NewTag {
    pub name: String,
    pub comment: Option<String>,
    pub scope: String,
    pub interest: String,
    pub kind: &'static str,
    pub scale_max: i64,
}

/// Add a custom tag: its canonical name and its stored comment.
pub fn add_plan(name: &str, comment: &str) -> (r: Result<(String, Option<String>), TagError>)
    ensures
        r is Ok <==> sanitized(name@) is Some,
        r is Err ==> r matches Err(TagError::InvalidName),
        r matches Ok(p) ==> sanitized(name@) == Some(p.0@) && match p.1 {
            Some(c) => comment_of(comment@) == Some(c@),
            None => comment_of(comment@) is None,
        },
{
    match sanitize_tag(name) {
        Some(clean) => Ok((clean, stored_comment(comment))),
        None => Err(TagError::InvalidName),
    }
}

/// Create a tag with an explicit scope, interest and kind: the name must
/// sanitize, then the scope and the interest must be valid (checked in that
/// order); the kind and ceiling are normalised.
pub fn create_plan(name: &str, comment: &str, scope: &str, interest: &str, kind: &str, scale_max: i64) -> (r: Result<NewTag, TagError>)
    ensures
        sanitized(name@) is None ==> r matches Err(TagError::InvalidName),
        sanitized(name@) is Some && !scope_ok(scope@) ==> r matches Err(TagError::InvalidScope),
        sanitized(name@) is Some && scope_ok(scope@) && !interest_ok(interest@) ==> r matches Err(TagError::InvalidInterest),
        r is Ok <==> (sanitized(name@) is Some && scope_ok(scope@) && interest_ok(interest@)),
        r matches Ok(t) ==> {
            &&& sanitized(name@) == Some(t.name@)
            &&& match t.comment {
                Some(c) => comment_of(comment@) == Some(c@),
                None => comment_of(comment@) is None,
            }
            &&& t.scope@ == scope@
            &&& t.interest@ == interest@
            &&& (kind@ == "scale"@ ==> t.kind@ == "scale"@ && t.scale_max == (if scale_max < 2 {
                2
            } else if scale_max > 10 {
                10
            } else {
                scale_max
            }))
            &&& (kind@ != "scale"@ ==> t.kind@ == "bool"@ && t.scale_max == 1)
        },
{
    let clean = match sanitize_tag(name) {
        Some(c) => c,
        None => return Err(TagError::InvalidName),
    };
    if !valid_scope(scope) {
        return Err(TagError::InvalidScope);
    }
    if !valid_interest(interest) {
        return Err(TagError::InvalidInterest);
    }
    let (k, m) = norm_kind(kind, scale_max);
    Ok(NewTag {
        name: clean,
        comment: stored_comment(comment),
        scope: scope.to_owned(),
        interest: interest.to_owned(),
        kind: k,
        scale_max: m,
    })
}

/// What a rename does once allowed.
pub enum Rename {
    /// The new name sanitizes to the old one: nothing to do.
    Same(String),
    /// Move the tag (and its subtree) to this canonical name.
    To(String),
}

/// Rename a tag: the star is locked; the old name must already be canonical; the
/// new one must sanitize; renaming into its own subtree is refused.
pub fn rename_plan(old: &str, new: &str) -> (r: Result<Rename, TagError>)
    ensures
        old@ == "star"@ ==> r matches Err(TagError::StarRename),
        old@ != "star"@ && sanitized(old@) != Some(old@) ==> r matches Err(TagError::InvalidName),
        old@ != "star"@ && sanitized(old@) == Some(old@) && sanitized(new@) is None ==> r matches Err(TagError::InvalidName),
        old@ != "star"@ && sanitized(old@) == Some(old@) && sanitized(new@) == Some(old@) ==> (r matches Ok(Rename::Same(c)) && c@ == old@),
        old@ != "star"@ && sanitized(old@) == Some(old@) && sanitized(new@) is Some && sanitized(new@) != Some(old@) ==> (if ancestor(old@, sanitized(new@)->0) {
            r matches Err(TagError::UnderItself)
        } else {
            r matches Ok(Rename::To(t)) && t@ == sanitized(new@)->0
        }),
{
    if str_eq(old, "star") {
        return Err(TagError::StarRename);
    }
    match sanitize_tag(old) {
        Some(c) => if !str_eq(c.as_str(), old) {
            return Err(TagError::InvalidName);
        },
        None => return Err(TagError::InvalidName),
    }
    let clean = match sanitize_tag(new) {
        Some(c) => c,
        None => return Err(TagError::InvalidName),
    };
    if str_eq(clean.as_str(), old) {
        return Ok(Rename::Same(clean));
    }
    if is_ancestor(old, clean.as_str()) {
        return Err(TagError::UnderItself);
    }
    Ok(Rename::To(clean))
}

/// Deleting a tag: the star is locked; the name must be canonical.
pub fn delete_check(name: &str) -> (r: Result<(), TagError>)
    ensures
        name@ == "star"@ ==> r matches Err(TagError::StarDelete),
        name@ != "star"@ && sanitized(name@) != Some(name@) ==> r matches Err(TagError::InvalidName),
        r is Ok <==> (name@ != "star"@ && sanitized(name@) == Some(name@)),
{
    if str_eq(name, "star") {
        return Err(TagError::StarDelete);
    }
    match sanitize_tag(name) {
        Some(c) => if str_eq(c.as_str(), name) {
            Ok(())
        } else {
            Err(TagError::InvalidName)
        },
        None => Err(TagError::InvalidName),
    }
}

/// Changing a tag's interest: the level must be valid, and the star stays
/// interesting.
pub fn interest_check(name: &str, interest: &str) -> (r: Result<(), TagError>)
    ensures
        !interest_ok(interest@) ==> r matches Err(TagError::InvalidInterest),
        interest_ok(interest@) && name@ == "star"@ && interest@ != "interesting"@ ==> r matches Err(TagError::StarInterest),
        r is Ok <==> (interest_ok(interest@) && !(name@ == "star"@ && interest@ != "interesting"@)),
{
    if !valid_interest(interest) {
        return Err(TagError::InvalidInterest);
    }
    if str_eq(name, "star") && !str_eq(interest, "interesting") {
        return Err(TagError::StarInterest);
    }
    Ok(())
}

/// Converting a tag between bool and scale: the star stays boolean; otherwise
/// the normalised kind and ceiling.
pub fn scale_plan(name: &str, kind: &str, scale_max: i64) -> (r: Result<(&'static str, i64), TagError>)
    ensures
        name@ == "star"@ && kind@ == "scale"@ ==> r matches Err(TagError::StarScale),
        r is Ok <==> !(name@ == "star"@ && kind@ == "scale"@),
        r matches Ok(p) ==> (kind@ == "scale"@ ==> p.0@ == "scale"@ && p.1 == (if scale_max < 2 {
            2
        } else if scale_max > 10 {
            10
        } else {
            scale_max
        })) && (kind@ != "scale"@ ==> p.0@ == "bool"@ && p.1 == 1),
{
    if str_eq(name, "star") && str_eq(kind, "scale") {
        return Err(TagError::StarScale);
    }
    Ok(norm_kind(kind, scale_max))
}

/// How a scope change moves a tag's existing applications.
pub enum ScopeMove {
    /// book -> word: collapse the book-keyed rows into the global '*' rows.
    CollapseToGlobal,
    /// word -> book, just added: re-home the global rows to this book slug.
    RehomeTo(String),
    /// word -> book, confirmed: drop the global rows.
    DropGlobal,
}

pub fn scope_move(scope: &str, convert_slug: Option<String>) -> (r: Result<ScopeMove, TagError>)
    ensures
        !scope_ok(scope@) ==> r matches Err(TagError::InvalidScope),
        r is Ok <==> scope_ok(scope@),
        scope@ == "word"@ ==> r matches Ok(ScopeMove::CollapseToGlobal),
        scope@ == "book"@ ==> match convert_slug {
            Some(s) => r matches Ok(ScopeMove::RehomeTo(t)) && t@ == s@,
            None => r matches Ok(ScopeMove::DropGlobal),
        },
{
    if !valid_scope(scope) {
        return Err(TagError::InvalidScope);
    }
    if str_eq(scope, "word") {
        proof {
            reveal_strlit("book");
            reveal_strlit("word");
            assert("book"@[0] != "word"@[0]);
        }
        return Ok(ScopeMove::CollapseToGlobal);
    }
    match convert_slug {
        Some(s) => Ok(ScopeMove::RehomeTo(s)),
        None => Ok(ScopeMove::DropGlobal),
    }
}

/// A scope's drag-drop layout as stored: each (name, section) in display order
/// gets `sort` = its index and its section label cleaned.
pub fn layout_rows(scope: &str, items: &Vec<(String, String)>) -> (r: Result<Vec<(String, String, i64)>, TagError>)
    requires
        items@.len() <= i64::MAX,
    ensures
        r is Ok <==> scope_ok(scope@),
        r is Err ==> r matches Err(TagError::InvalidScope),
        r matches Ok(rows) ==> rows@.len() == items@.len() && forall|i: int| 0 <= i < rows@.len() ==> {
            &&& (#[trigger] rows@[i]).0@ == items@[i].0@
            &&& rows@[i].1@ == section_label(items@[i].1@)
            &&& rows@[i].2 == i
        },
{
    if !valid_scope(scope) {
        return Err(TagError::InvalidScope);
    }
    let mut rows: Vec<(String, String, i64)> = Vec::new();
    let mut i: usize = 0;
    while i < items.len()
        invariant
            items@.len() <= i64::MAX,
            i <= items@.len(),
            rows@.len() == i,
            forall|k: int| 0 <= k < i ==> {
                &&& (#[trigger] rows@[k]).0@ == items@[k].0@
                &&& rows@[k].1@ == section_label(items@[k].1@)
                &&& rows@[k].2 == k
            },
        decreases items@.len() - i,
    {
        let section = sanitize_section(items[i].1.as_str());
        rows.push((items[i].0.clone(), section, i as i64));
        i = i + 1;
    }
    Ok(rows)
}

} // verus!
