//! A single root key that may act as root, or as any account.
use vstd::prelude::*;

verus! {

/// Who a call comes from.
#[derive(Clone, Copy, Debug, PartialEq, Eq, Structural)]
pub enum Origin {
    Root,
    Signed(u64),
    Unsigned,
}

#[derive(Clone, Copy, Debug, PartialEq, Eq, Structural)]
pub enum SudoError {
    /// The call does not come from a signed account.
    BadOrigin,
    /// The signer is not the root key.
    RequireSudo,
}

/// The root key.
pub struct Sudo {
    key: u64,
}

/// Whether `origin` is the signed root key `key`.
pub open spec fn sudo_check(key: u64, origin: Origin) -> Result<(), SudoError> {
    match origin {
        Origin::Signed(s) => if s == key {
            Ok(())
        } else {
            Err(SudoError::RequireSudo)
        },
        _ => Err(SudoError::BadOrigin),
    }
}

impl Sudo {
    pub closed spec fn spec_key(&self) -> u64 {
        self.key
    }

    /// A root key set to `key`.
    pub fn new(key: u64) -> (r: Sudo)
        ensures
            r.spec_key() == key,
    {
        Sudo { key }
    }

    /// The root key.
    pub fn key(&self) -> (r: u64)
        ensures
            r == self.spec_key(),
    {
        self.key
    }

    /// Succeeds only for a call signed by the root key.
    pub fn ensure_sudo(&self, origin: Origin) -> (r: Result<(), SudoError>)
        ensures
            r == sudo_check(self.spec_key(), origin),
    {
        match origin {
            Origin::Signed(s) => if s == self.key {
                Ok(())
            } else {
                Err(SudoError::RequireSudo)
            },
            _ => Err(SudoError::BadOrigin),
        }
    }

    /// The origin with which a call of the root key is dispatched: root.
    pub fn sudo(&self, origin: Origin) -> (r: Result<Origin, SudoError>)
        ensures
            r is Ok <==> sudo_check(self.spec_key(), origin) is Ok,
            r is Err ==> Err::<(), SudoError>(r->Err_0) == sudo_check(self.spec_key(), origin),
            r is Ok ==> r->Ok_0 == Origin::Root,
    {
        match self.ensure_sudo(origin) {
            Ok(()) => Ok(Origin::Root),
            Err(e) => Err(e),
        }
    }

    /// The origin with which a call of the root key is dispatched as `who`.
    pub fn sudo_as(&self, origin: Origin, who: u64) -> (r: Result<Origin, SudoError>)
        ensures
            r is Ok <==> sudo_check(self.spec_key(), origin) is Ok,
            r is Err ==> Err::<(), SudoError>(r->Err_0) == sudo_check(self.spec_key(), origin),
            r is Ok ==> r->Ok_0 == Origin::Signed(who),
    {
        match self.ensure_sudo(origin) {
            Ok(()) => Ok(Origin::Signed(who)),
            Err(e) => Err(e),
        }
    }

    /// The root key hands over to `new`; returns the key it replaced.
    pub fn set_key(&mut self, origin: Origin, new: u64) -> (r: Result<u64, SudoError>)
        ensures
            r is Ok <==> sudo_check(old(self).spec_key(), origin) is Ok,
            r is Err ==> Err::<(), SudoError>(r->Err_0) == sudo_check(old(self).spec_key(), origin)
                && final(self).spec_key() == old(self).spec_key(),
            r is Ok ==> r->Ok_0 == old(self).spec_key() && final(self).spec_key() == new,
    {
        match self.ensure_sudo(origin) {
            Ok(()) => {
                let previous = self.key;
                self.key = new;
                Ok(previous)
            },
            Err(e) => Err(e),
        }
    }
}

} // verus!
