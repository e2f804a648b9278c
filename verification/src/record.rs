//! The row types that the loader and its callers exchange.
//!
//! Identifiers are carried as `u128` values (the numeric form of a 128-bit
//! unique id) and timestamps as `i64` values (microseconds since the epoch),
//! so that every field is a plain value the verifier can reason about.

use vstd::prelude::*;

verus! {

/// One question row.  `band_id` is the foreign key the loader groups and
/// caches by; the remaining fields are payload carried through unchanged.
#[derive(Debug)]
pub struct Question {
    pub id: u128,
    pub content: String,
    pub correct_answer_id: u128,
    pub band_id: u128,
    pub created_at: i64,
    pub updated_at: i64,
}

impl Clone for Question {
    /// A clone is equal to the original, field for field.
    fn clone(&self) -> (res: Self)
        ensures
            res == *self,
    {
        Question {
            id: self.id,
            content: self.content.clone(),
            correct_answer_id: self.correct_answer_id,
            band_id: self.band_id,
            created_at: self.created_at,
            updated_at: self.updated_at,
        }
    }
}

/// The fields a caller supplies when inserting a new question.
#[derive(Debug)]
pub struct CreateQuestion {
    pub content: String,
    pub correct_answer_id: u128,
    pub band_id: u128,
}

/// One answer row.
#[derive(Debug)]
pub struct Answer {
    pub id: u128,
    pub content: String,
    pub created_at: i64,
    pub updated_at: i64,
}

/// The fields a caller supplies when inserting a new answer.
#[derive(Debug)]
pub struct CreateAnswer {
    pub content: String,
}

/// One band row.
#[derive(Debug)]
pub struct Band {
    pub id: u128,
    pub name: String,
    pub owner_id: u128,
    pub created_at: i64,
    pub updated_at: i64,
}

/// The fields a caller supplies when inserting a new band.
#[derive(Debug)]
pub struct CreateBand {
    pub name: String,
    pub owner_id: u128,
}

/// One user row.
#[derive(Debug)]
pub struct User {
    pub id: u128,
    pub username: String,
    pub email: String,
    pub password: String,
    pub bio: Option<String>,
    pub image: Option<String>,
    pub created_at: i64,
    pub updated_at: i64,
}

impl User {
    pub fn id(&self) -> (r: u128)
        ensures
            r == self.id,
    {
        self.id
    }

    pub fn username(&self) -> (r: &str)
        ensures
            r@ == self.username@,
    {
        self.username.as_str()
    }

    pub fn email(&self) -> (r: &str)
        ensures
            r@ == self.email@,
    {
        self.email.as_str()
    }

    pub fn bio(&self) -> (r: Option<&str>)
        ensures
            self.bio is None ==> r is None,
            self.bio matches Some(b) ==> (r matches Some(s) && s@ == b@),
    {
        match &self.bio {
            Some(s) => Some(s.as_str()),
            None => None,
        }
    }

    pub fn image(&self) -> (r: Option<&str>)
        ensures
            self.image is None ==> r is None,
            self.image matches Some(b) ==> (r matches Some(s) && s@ == b@),
    {
        match &self.image {
            Some(s) => Some(s.as_str()),
            None => None,
        }
    }

    pub fn created_at(&self) -> (r: i64)
        ensures
            r == self.created_at,
    {
        self.created_at
    }

    pub fn updated_at(&self) -> (r: i64)
        ensures
            r == self.updated_at,
    {
        self.updated_at
    }
}

/// Returns the one row of a single-row query result: the last row if any
/// rows came back, `None` on an empty result.
pub fn take_single<T>(rows: &mut Vec<T>) -> (r: Option<T>)
    ensures
        old(rows)@.len() == 0 ==> r is None,
        old(rows)@.len() > 0 ==> r == Some(old(rows)@.last()),
{
    rows.pop()
}

} // verus!
