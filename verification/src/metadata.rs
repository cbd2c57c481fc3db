//! What is known of one installed package.

use crate::text::{eq_chars, lex_less, lex_less_chars, to_chars};
use std::cmp::Ordering;
use vstd::prelude::*;

verus! {

/// The metadata of a package: its name, its licenses, the packages it
/// requires, and whether one of its licenses is to be avoided.
#[derive(Debug, Clone, Eq, PartialEq)]
pub struct Metadata {
    pub name: String,
    pub license: Vec<String>,
    pub requirements: Vec<String>,
    pub bad_license: bool,
}

/// The texts that the strings of `v` hold.
pub open spec fn strings(v: Seq<String>) -> Seq<Seq<char>> {
    Seq::new(v.len(), |i: int| v[i]@)
}

impl Default for Metadata {
    fn default() -> (m: Metadata)
        ensures
            m.name@.len() == 0,
            m.license@.len() == 0,
            m.requirements@.len() == 0,
            !m.bad_license,
    {
        Metadata {
            name: String::new(),
            license: Vec::new(),
            requirements: Vec::new(),
            bad_license: false,
        }
    }
}

impl Metadata {
    /// The order of packages is the order of their names as strings; nothing
    /// but the name counts.
    pub fn cmp(&self, other: &Metadata) -> (o: Ordering)
        ensures
            match o {
                Ordering::Less => lex_less(self.name@, other.name@),
                Ordering::Equal => self.name@ == other.name@,
                Ordering::Greater => lex_less(other.name@, self.name@),
            },
    {
        let a = to_chars(self.name.as_str());
        let b = to_chars(other.name.as_str());
        proof {
            crate::text::lemma_lex_less_total(a@, b@);
        }
        if eq_chars(&a, &b) {
            Ordering::Equal
        } else if lex_less_chars(&a, &b) {
            Ordering::Less
        } else {
            Ordering::Greater
        }
    }

    /// The order of two packages, which every two packages have.
    pub fn partial_cmp(&self, other: &Metadata) -> (o: Option<Ordering>)
        ensures
            match o {
                Some(Ordering::Less) => lex_less(self.name@, other.name@),
                Some(Ordering::Equal) => self.name@ == other.name@,
                Some(Ordering::Greater) => lex_less(other.name@, self.name@),
                None => false,
            },
    {
        Some(self.cmp(other))
    }
}

} // verus!
