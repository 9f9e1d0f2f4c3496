use vstd::prelude::*;
use crate::text::{ParseNumberError, chars_of, split_whitespace, u32s_of, words_of};
use crate::utilities::{CollectIntoResult, MapParse, collect_spec};

verus! {

/// A list of numbers.
#[derive(Debug)]
pub struct NumberList<T> {
    list: Vec<T>,
}

impl<T> View for NumberList<T> {
    type V = Seq<T>;

    closed spec fn view(&self) -> Seq<T> {
        self.list@
    }
}

impl<T> NumberList<T> {
    /// The list that holds the numbers of `list`, in their order.
    pub fn new(list: Vec<T>) -> (r: Self)
        ensures
            r@ == list@,
    {
        Self { list }
    }
}

impl<T> std::ops::Deref for NumberList<T> {
    type Target = Vec<T>;

    fn deref(&self) -> (r: &Vec<T>)
        ensures
            r@ == self@,
    {
        &self.list
    }
}

impl<T> std::ops::DerefMut for NumberList<T> {
    fn deref_mut(&mut self) -> (r: &mut Vec<T>)
        ensures
            r@ == old(self)@,
            final(self)@ == final(r)@,
    {
        &mut self.list
    }
}

impl NumberList<u32> {
    /// The list of the numbers that the words of the text show; else what
    /// is wrong with the first word that shows none.
    pub fn from_text(s: &str) -> (r: Result<Self, ParseNumberError>)
        ensures
            match r {
                Ok(list) => collect_spec(u32s_of(words_of(s@))) == Ok::<Seq<u32>, ParseNumberError>(
                    list@,
                ),
                Err(e) => collect_spec(u32s_of(words_of(s@))) == Err::<Seq<u32>, ParseNumberError>(
                    e,
                ),
            },
    {
        let words = split_whitespace(&chars_of(s));
        let results = MapParse::<u32>::parse(words);
        proof {
            assert(results@ =~= u32s_of(words_of(s@)));
        }
        match results.collect_result() {
            Ok(list) => Ok(Self::new(list)),
            Err(e) => Err(e),
        }
    }
}

impl std::str::FromStr for NumberList<u32> {
    type Err = ParseNumberError;

    /// The list of the numbers that the words of the text show; else what
    /// is wrong with the first word that shows none.
    fn from_str(s: &str) -> (r: Result<Self, ParseNumberError>)
        ensures
            match r {
                Ok(list) => collect_spec(u32s_of(words_of(s@))) == Ok::<Seq<u32>, ParseNumberError>(
                    list@,
                ),
                Err(e) => collect_spec(u32s_of(words_of(s@))) == Err::<Seq<u32>, ParseNumberError>(
                    e,
                ),
            },
    {
        NumberList::<u32>::from_text(s)
    }
}

} // verus!
