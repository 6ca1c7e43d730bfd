//! A user record with a name and an e-mail address, and the rule that decides
//! whether such a record is valid.

use crate::strings::contains_char;
use vstd::prelude::*;

verus! {

/// A user record.
#[derive(Debug)]
pub struct User {
    id: u32,
    name: String,
    email: String,
}

/// What a [`User`] holds, as plain values.
pub struct UserView {
    pub id: u32,
    pub name: Seq<char>,
    pub email: Seq<char>,
}

impl View for User {
    type V = UserView;

    closed spec fn view(&self) -> UserView {
        UserView { id: self.id, name: self.name@, email: self.email@ }
    }
}

/// The state of an account.
pub enum Status {
    Active,
    Inactive,
    Pending,
}

/// Whether an e-mail address has the one mark that is asked of it: an `@`.
pub open spec fn email_is_plausible(email: Seq<char>) -> bool {
    email.contains('@')
}

/// Whether a record with this name and this e-mail address is valid: the name
/// is not empty and the address holds an `@`.
pub open spec fn user_is_valid(user: UserView) -> bool {
    user.name.len() > 0 && email_is_plausible(user.email)
}

/// What [`create_user`] returns for a name and an e-mail address.
pub open spec fn created_user(name: Seq<char>, email: Seq<char>) -> Result<UserView, Seq<char>> {
    if name.len() == 0 {
        Err("Name cannot be empty"@)
    } else if !email_is_plausible(email) {
        Err("Invalid user data"@)
    } else {
        Ok(UserView { id: 1, name, email })
    }
}

/// A value that can say of itself whether it is valid.
pub trait Validate {
    /// What validity means for this type.
    spec fn valid(&self) -> bool;

    fn is_valid(&self) -> (ok: bool)
        ensures
            ok == self.valid(),
    ;
}

impl User {
    pub fn new(id: u32, name: String, email: String) -> (user: Self)
        ensures
            user@ == (UserView { id, name: name@, email: email@ }),
    {
        User { id, name, email }
    }

    pub fn get_name(&self) -> (name: &str)
        ensures
            name@ == self@.name,
    {
        self.name.as_str()
    }

    fn validate_email(&self) -> (ok: bool)
        ensures
            ok == email_is_plausible(self@.email),
    {
        contains_char(self.email.as_str(), '@')
    }
}

impl Validate for User {
    open spec fn valid(&self) -> bool {
        user_is_valid(self@)
    }

    fn is_valid(&self) -> (ok: bool) {
        !self.name.as_str().is_empty() && self.validate_email()
    }
}

/// Makes the user with the identifier 1 from a name and an e-mail address, or
/// says why there is no such user: the name is empty, or (the name being given)
/// the address holds no `@`.
pub fn create_user(name: &str, email: &str) -> (made: Result<User, String>)
    ensures
        match made {
            Ok(user) => created_user(name@, email@) == Ok::<UserView, Seq<char>>(user@),
            Err(why) => created_user(name@, email@) == Err::<UserView, Seq<char>>(why@),
        },
{
    if name.is_empty() {
        return Err("Name cannot be empty".to_owned());
    }
    let user = User::new(1, name.to_owned(), email.to_owned());
    if user.is_valid() {
        Ok(user)
    } else {
        Err("Invalid user data".to_owned())
    }
}

} // verus!
