//! A user with a name and an age.
use vstd::prelude::*;

verus! {

/// A user with a name and an age.
pub struct User {
    name: String,
    age: u8,
}

impl View for User {
    /// The user's name and age.
    type V = (Seq<char>, u8);

    closed spec fn view(&self) -> (Seq<char>, u8) {
        (self.name@, self.age)
    }
}

impl User {
    /// A user with the given name and age.
    pub fn new(name: String, age: u8) -> (res: Self)
        ensures
            res@ == (name@, age),
    {
        Self { name, age }
    }

    /// Whether the user is 18 or older.
    pub fn is_adult(&self) -> (res: bool)
        ensures
            res == (self@.1 >= 18),
    {
        self.age >= 18
    }

    /// Replaces the user's name; the age stays.
    pub fn update_name(&mut self, name: String)
        ensures
            final(self)@ == (name@, old(self)@.1),
    {
        self.name = name;
    }

    /// The user's name.
    pub fn get_name(&self) -> (res: &str)
        ensures
            res@ == self@.0,
    {
        self.name.as_str()
    }
}

} // verus!
