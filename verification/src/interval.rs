//! Ranges of keys.
use crate::order;
use crate::order::Side;
use crate::rows::Changes;
use vstd::prelude::*;

verus! {

/// An end of an interval.
#[derive(Debug)]
pub enum Bound<T> {
    /// The end belongs to the interval.
    Included(T),
    /// The end does not belong to the interval.
    Excluded(T),
    /// There is no end on this side.
    Unbounded,
}

/// The keys between two bounds.
#[derive(Debug)]
pub struct Interval<T> {
    pub lower: Bound<T>,
    pub upper: Bound<T>,
}

/// The key is not below the lower end.
pub open spec fn above_lower(key: Seq<char>, lower: Bound<String>) -> bool {
    match lower {
        Bound::Included(end) => !order::key_less(key, end@),
        Bound::Excluded(end) => order::key_less(end@, key),
        Bound::Unbounded => true,
    }
}

/// The key is not above the upper end.
pub open spec fn below_upper(key: Seq<char>, upper: Bound<String>) -> bool {
    match upper {
        Bound::Included(end) => !order::key_less(end@, key),
        Bound::Excluded(end) => order::key_less(key, end@),
        Bound::Unbounded => true,
    }
}

/// The key lies in the interval.
pub open spec fn within(key: Seq<char>, interval: Interval<String>) -> bool {
    above_lower(key, interval.lower) && below_upper(key, interval.upper)
}

/// An included end belongs to the interval, an excluded one does not, and otherwise the interval has
/// the keys behind its lower end and before its upper end.
pub proof fn law_ends_of_an_interval(key: Seq<char>, end: String)
    ensures
        above_lower(key, Bound::Included(end)) <==> key == end@ || order::key_less(end@, key),
        above_lower(key, Bound::Excluded(end)) <==> order::key_less(end@, key),
        above_lower(key, Bound::Unbounded),
        below_upper(key, Bound::Included(end)) <==> key == end@ || order::key_less(key, end@),
        below_upper(key, Bound::Excluded(end)) <==> order::key_less(key, end@),
        below_upper(key, Bound::Unbounded),
{
    broadcast use order::group_key_order;

}

/// A key lies in an interval exactly where it lies on the right side of both ends.
pub proof fn law_within_both_ends(key: Seq<char>, interval: Interval<String>)
    ensures
        within(key, interval) <==> {
            &&& match interval.lower {
                Bound::Included(end) => key == end@ || order::key_less(end@, key),
                Bound::Excluded(end) => order::key_less(end@, key),
                Bound::Unbounded => true,
            }
            &&& match interval.upper {
                Bound::Included(end) => key == end@ || order::key_less(key, end@),
                Bound::Excluded(end) => order::key_less(key, end@),
                Bound::Unbounded => true,
            }
        },
{
    broadcast use order::group_key_order;

}

/// What the map says of the keys that are not below the lower end.
pub open spec fn from_lower(changes: Changes, lower: Bound<String>) -> Changes {
    changes.filter_keys(|key: Seq<char>| above_lower(key, lower))
}

/// Whether the key is not below the lower end.
pub fn above_lower_bound(key: &str, lower: &Bound<String>) -> (above: bool)
    ensures
        above == above_lower(key@, *lower),
{
    broadcast use order::group_key_order;

    match lower {
        Bound::Included(end) => match order::compare(key, end.as_str()) {
            Side::Before => false,
            _ => true,
        },
        Bound::Excluded(end) => match order::compare(end.as_str(), key) {
            Side::Before => true,
            _ => false,
        },
        Bound::Unbounded => true,
    }
}

/// Whether the key is not above the upper end.
pub fn below_upper_bound(key: &str, upper: &Bound<String>) -> (below: bool)
    ensures
        below == below_upper(key@, *upper),
{
    broadcast use order::group_key_order;

    match upper {
        Bound::Included(end) => match order::compare(end.as_str(), key) {
            Side::Before => false,
            _ => true,
        },
        Bound::Excluded(end) => match order::compare(key, end.as_str()) {
            Side::Before => true,
            _ => false,
        },
        Bound::Unbounded => true,
    }
}

/// The same end once more.
fn duplicate_bound(bound: &Bound<String>) -> (copy: Bound<String>)
    ensures
        copy == *bound,
{
    match bound {
        Bound::Included(end) => Bound::Included(end.clone()),
        Bound::Excluded(end) => Bound::Excluded(end.clone()),
        Bound::Unbounded => Bound::Unbounded,
    }
}

impl Interval<String> {
    /// The same interval once more.
    pub fn duplicate(&self) -> (copy: Interval<String>)
        ensures
            copy == *self,
    {
        Interval { lower: duplicate_bound(&self.lower), upper: duplicate_bound(&self.upper) }
    }
}

} // verus!
