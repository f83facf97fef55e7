//! Types that are their own folded form: `casserole` gives back a copy of the value.
use crate::ser::{lawful, Casserole, Contents};
use crate::store::Store;
use vstd::prelude::*;

verus! {

impl<S: Store> Casserole<S> for () {
    type Target = ();

    open spec fn exact() -> bool {
        true
    }

    open spec fn restores(target: (), contents: Contents<S>, value: ()) -> bool {
        target == value
    }

    open spec fn same(a: (), b: ()) -> bool {
        a == b
    }

    fn casserole(&self, _store: &mut S) -> (res: Result<(), S::Error>)
        ensures
            res == Ok::<(), S::Error>(*self),
            *final(_store) == *old(_store),
    {
        Ok(*self)
    }

    fn decasserole(target: &(), _store: &mut S) -> (res: Result<(), S::Error>)
        ensures
            res == Ok::<(), S::Error>(*target),
            *final(_store) == *old(_store),
    {
        Ok(*target)
    }
}

/// `()` is lawful: a value folds to itself.
pub proof fn lemma_lawful_unit<S: Store>()
    ensures
        lawful::<S, ()>(),
{
}

impl<S: Store> Casserole<S> for bool {
    type Target = bool;

    open spec fn exact() -> bool {
        true
    }

    open spec fn restores(target: bool, contents: Contents<S>, value: bool) -> bool {
        target == value
    }

    open spec fn same(a: bool, b: bool) -> bool {
        a == b
    }

    fn casserole(&self, _store: &mut S) -> (res: Result<bool, S::Error>)
        ensures
            res == Ok::<bool, S::Error>(*self),
            *final(_store) == *old(_store),
    {
        Ok(*self)
    }

    fn decasserole(target: &bool, _store: &mut S) -> (res: Result<bool, S::Error>)
        ensures
            res == Ok::<bool, S::Error>(*target),
            *final(_store) == *old(_store),
    {
        Ok(*target)
    }
}

/// `bool` is lawful: a value folds to itself.
pub proof fn lemma_lawful_bool<S: Store>()
    ensures
        lawful::<S, bool>(),
{
}

impl<S: Store> Casserole<S> for u8 {
    type Target = u8;

    open spec fn exact() -> bool {
        true
    }

    open spec fn restores(target: u8, contents: Contents<S>, value: u8) -> bool {
        target == value
    }

    open spec fn same(a: u8, b: u8) -> bool {
        a == b
    }

    fn casserole(&self, _store: &mut S) -> (res: Result<u8, S::Error>)
        ensures
            res == Ok::<u8, S::Error>(*self),
            *final(_store) == *old(_store),
    {
        Ok(*self)
    }

    fn decasserole(target: &u8, _store: &mut S) -> (res: Result<u8, S::Error>)
        ensures
            res == Ok::<u8, S::Error>(*target),
            *final(_store) == *old(_store),
    {
        Ok(*target)
    }
}

/// `u8` is lawful: a value folds to itself.
pub proof fn lemma_lawful_u8<S: Store>()
    ensures
        lawful::<S, u8>(),
{
}

impl<S: Store> Casserole<S> for u16 {
    type Target = u16;

    open spec fn exact() -> bool {
        true
    }

    open spec fn restores(target: u16, contents: Contents<S>, value: u16) -> bool {
        target == value
    }

    open spec fn same(a: u16, b: u16) -> bool {
        a == b
    }

    fn casserole(&self, _store: &mut S) -> (res: Result<u16, S::Error>)
        ensures
            res == Ok::<u16, S::Error>(*self),
            *final(_store) == *old(_store),
    {
        Ok(*self)
    }

    fn decasserole(target: &u16, _store: &mut S) -> (res: Result<u16, S::Error>)
        ensures
            res == Ok::<u16, S::Error>(*target),
            *final(_store) == *old(_store),
    {
        Ok(*target)
    }
}

/// `u16` is lawful: a value folds to itself.
pub proof fn lemma_lawful_u16<S: Store>()
    ensures
        lawful::<S, u16>(),
{
}

impl<S: Store> Casserole<S> for u32 {
    type Target = u32;

    open spec fn exact() -> bool {
        true
    }

    open spec fn restores(target: u32, contents: Contents<S>, value: u32) -> bool {
        target == value
    }

    open spec fn same(a: u32, b: u32) -> bool {
        a == b
    }

    fn casserole(&self, _store: &mut S) -> (res: Result<u32, S::Error>)
        ensures
            res == Ok::<u32, S::Error>(*self),
            *final(_store) == *old(_store),
    {
        Ok(*self)
    }

    fn decasserole(target: &u32, _store: &mut S) -> (res: Result<u32, S::Error>)
        ensures
            res == Ok::<u32, S::Error>(*target),
            *final(_store) == *old(_store),
    {
        Ok(*target)
    }
}

/// `u32` is lawful: a value folds to itself.
pub proof fn lemma_lawful_u32<S: Store>()
    ensures
        lawful::<S, u32>(),
{
}

impl<S: Store> Casserole<S> for u64 {
    type Target = u64;

    open spec fn exact() -> bool {
        true
    }

    open spec fn restores(target: u64, contents: Contents<S>, value: u64) -> bool {
        target == value
    }

    open spec fn same(a: u64, b: u64) -> bool {
        a == b
    }

    fn casserole(&self, _store: &mut S) -> (res: Result<u64, S::Error>)
        ensures
            res == Ok::<u64, S::Error>(*self),
            *final(_store) == *old(_store),
    {
        Ok(*self)
    }

    fn decasserole(target: &u64, _store: &mut S) -> (res: Result<u64, S::Error>)
        ensures
            res == Ok::<u64, S::Error>(*target),
            *final(_store) == *old(_store),
    {
        Ok(*target)
    }
}

/// `u64` is lawful: a value folds to itself.
pub proof fn lemma_lawful_u64<S: Store>()
    ensures
        lawful::<S, u64>(),
{
}

impl<S: Store> Casserole<S> for usize {
    type Target = usize;

    open spec fn exact() -> bool {
        true
    }

    open spec fn restores(target: usize, contents: Contents<S>, value: usize) -> bool {
        target == value
    }

    open spec fn same(a: usize, b: usize) -> bool {
        a == b
    }

    fn casserole(&self, _store: &mut S) -> (res: Result<usize, S::Error>)
        ensures
            res == Ok::<usize, S::Error>(*self),
            *final(_store) == *old(_store),
    {
        Ok(*self)
    }

    fn decasserole(target: &usize, _store: &mut S) -> (res: Result<usize, S::Error>)
        ensures
            res == Ok::<usize, S::Error>(*target),
            *final(_store) == *old(_store),
    {
        Ok(*target)
    }
}

/// `usize` is lawful: a value folds to itself.
pub proof fn lemma_lawful_usize<S: Store>()
    ensures
        lawful::<S, usize>(),
{
}

impl<S: Store> Casserole<S> for i8 {
    type Target = i8;

    open spec fn exact() -> bool {
        true
    }

    open spec fn restores(target: i8, contents: Contents<S>, value: i8) -> bool {
        target == value
    }

    open spec fn same(a: i8, b: i8) -> bool {
        a == b
    }

    fn casserole(&self, _store: &mut S) -> (res: Result<i8, S::Error>)
        ensures
            res == Ok::<i8, S::Error>(*self),
            *final(_store) == *old(_store),
    {
        Ok(*self)
    }

    fn decasserole(target: &i8, _store: &mut S) -> (res: Result<i8, S::Error>)
        ensures
            res == Ok::<i8, S::Error>(*target),
            *final(_store) == *old(_store),
    {
        Ok(*target)
    }
}

/// `i8` is lawful: a value folds to itself.
pub proof fn lemma_lawful_i8<S: Store>()
    ensures
        lawful::<S, i8>(),
{
}

impl<S: Store> Casserole<S> for i16 {
    type Target = i16;

    open spec fn exact() -> bool {
        true
    }

    open spec fn restores(target: i16, contents: Contents<S>, value: i16) -> bool {
        target == value
    }

    open spec fn same(a: i16, b: i16) -> bool {
        a == b
    }

    fn casserole(&self, _store: &mut S) -> (res: Result<i16, S::Error>)
        ensures
            res == Ok::<i16, S::Error>(*self),
            *final(_store) == *old(_store),
    {
        Ok(*self)
    }

    fn decasserole(target: &i16, _store: &mut S) -> (res: Result<i16, S::Error>)
        ensures
            res == Ok::<i16, S::Error>(*target),
            *final(_store) == *old(_store),
    {
        Ok(*target)
    }
}

/// `i16` is lawful: a value folds to itself.
pub proof fn lemma_lawful_i16<S: Store>()
    ensures
        lawful::<S, i16>(),
{
}

impl<S: Store> Casserole<S> for i32 {
    type Target = i32;

    open spec fn exact() -> bool {
        true
    }

    open spec fn restores(target: i32, contents: Contents<S>, value: i32) -> bool {
        target == value
    }

    open spec fn same(a: i32, b: i32) -> bool {
        a == b
    }

    fn casserole(&self, _store: &mut S) -> (res: Result<i32, S::Error>)
        ensures
            res == Ok::<i32, S::Error>(*self),
            *final(_store) == *old(_store),
    {
        Ok(*self)
    }

    fn decasserole(target: &i32, _store: &mut S) -> (res: Result<i32, S::Error>)
        ensures
            res == Ok::<i32, S::Error>(*target),
            *final(_store) == *old(_store),
    {
        Ok(*target)
    }
}

/// `i32` is lawful: a value folds to itself.
pub proof fn lemma_lawful_i32<S: Store>()
    ensures
        lawful::<S, i32>(),
{
}

impl<S: Store> Casserole<S> for i64 {
    type Target = i64;

    open spec fn exact() -> bool {
        true
    }

    open spec fn restores(target: i64, contents: Contents<S>, value: i64) -> bool {
        target == value
    }

    open spec fn same(a: i64, b: i64) -> bool {
        a == b
    }

    fn casserole(&self, _store: &mut S) -> (res: Result<i64, S::Error>)
        ensures
            res == Ok::<i64, S::Error>(*self),
            *final(_store) == *old(_store),
    {
        Ok(*self)
    }

    fn decasserole(target: &i64, _store: &mut S) -> (res: Result<i64, S::Error>)
        ensures
            res == Ok::<i64, S::Error>(*target),
            *final(_store) == *old(_store),
    {
        Ok(*target)
    }
}

/// `i64` is lawful: a value folds to itself.
pub proof fn lemma_lawful_i64<S: Store>()
    ensures
        lawful::<S, i64>(),
{
}

impl<S: Store> Casserole<S> for isize {
    type Target = isize;

    open spec fn exact() -> bool {
        true
    }

    open spec fn restores(target: isize, contents: Contents<S>, value: isize) -> bool {
        target == value
    }

    open spec fn same(a: isize, b: isize) -> bool {
        a == b
    }

    fn casserole(&self, _store: &mut S) -> (res: Result<isize, S::Error>)
        ensures
            res == Ok::<isize, S::Error>(*self),
            *final(_store) == *old(_store),
    {
        Ok(*self)
    }

    fn decasserole(target: &isize, _store: &mut S) -> (res: Result<isize, S::Error>)
        ensures
            res == Ok::<isize, S::Error>(*target),
            *final(_store) == *old(_store),
    {
        Ok(*target)
    }
}

/// `isize` is lawful: a value folds to itself.
pub proof fn lemma_lawful_isize<S: Store>()
    ensures
        lawful::<S, isize>(),
{
}

impl<S: Store> Casserole<S> for String {
    type Target = String;

    open spec fn exact() -> bool {
        true
    }

    open spec fn restores(target: String, contents: Contents<S>, value: String) -> bool {
        target == value
    }

    open spec fn same(a: String, b: String) -> bool {
        a == b
    }

    fn casserole(&self, _store: &mut S) -> (res: Result<String, S::Error>)
        ensures
            res == Ok::<String, S::Error>(*self),
            *final(_store) == *old(_store),
    {
        Ok(self.clone())
    }

    fn decasserole(target: &String, _store: &mut S) -> (res: Result<String, S::Error>)
        ensures
            res == Ok::<String, S::Error>(*target),
            *final(_store) == *old(_store),
    {
        Ok(target.clone())
    }
}

/// `String` is lawful: a value folds to itself.
pub proof fn lemma_lawful_string<S: Store>()
    ensures
        lawful::<S, String>(),
{
}

} // verus!
