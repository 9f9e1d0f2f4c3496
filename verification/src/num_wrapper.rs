use vstd::prelude::*;

verus! {

/// A number in a wrapper of its own, to hang arithmetic with other types on.
#[derive(Clone, Copy)]
pub struct NumWrapper<T>(pub T);

impl<T> View for NumWrapper<T> {
    type V = T;

    open spec fn view(&self) -> T {
        self.0
    }
}

impl<T> NumWrapper<T> {
    /// The wrapper around `value`.
    pub fn new(value: T) -> (r: Self)
        ensures
            r@ == value,
    {
        Self(value)
    }
}

impl<T> std::ops::Deref for NumWrapper<T> {
    type Target = T;

    fn deref(&self) -> (r: &T)
        ensures
            *r == self@,
    {
        &self.0
    }
}

impl<T> std::ops::DerefMut for NumWrapper<T> {
    fn deref_mut(&mut self) -> (r: &mut T)
        ensures
            *r == old(self)@,
            final(self)@ == *final(r),
    {
        &mut self.0
    }
}

impl std::ops::Add for NumWrapper<u32> {
    type Output = NumWrapper<u32>;

    fn add(self, rhs: Self) -> (r: NumWrapper<u32>) {
        NumWrapper(self.0 + rhs.0)
    }
}

impl vstd::std_specs::ops::AddSpecImpl for NumWrapper<u32> {
    open spec fn obeys_add_spec() -> bool {
        true
    }

    open spec fn add_req(self, rhs: Self) -> bool {
        self@ + rhs@ <= u32::MAX
    }

    open spec fn add_spec(self, rhs: Self) -> NumWrapper<u32> {
        NumWrapper((self@ + rhs@) as u32)
    }
}

impl std::ops::Add<u32> for NumWrapper<u32> {
    type Output = NumWrapper<u32>;

    fn add(self, rhs: u32) -> (r: NumWrapper<u32>) {
        NumWrapper(self.0 + rhs)
    }
}

impl vstd::std_specs::ops::AddSpecImpl<u32> for NumWrapper<u32> {
    open spec fn obeys_add_spec() -> bool {
        true
    }

    open spec fn add_req(self, rhs: u32) -> bool {
        self@ + rhs <= u32::MAX
    }

    open spec fn add_spec(self, rhs: u32) -> NumWrapper<u32> {
        NumWrapper((self@ + rhs) as u32)
    }
}

impl NumWrapper<u32> {
    /// Adds `rhs` to the number in place.
    pub fn add_assign(&mut self, rhs: u32)
        requires
            old(self)@ + rhs <= u32::MAX,
        ensures
            final(self)@ == old(self)@ + rhs,
    {
        self.0 = self.0 + rhs;
    }

    /// Adds the number in `rhs` to the number in place.
    pub fn add_assign_wrapped(&mut self, rhs: NumWrapper<u32>)
        requires
            old(self)@ + rhs@ <= u32::MAX,
        ensures
            final(self)@ == old(self)@ + rhs@,
    {
        self.0 = self.0 + rhs.0;
    }
}

} // verus!
