use crate::error::ParseError;
use crate::values::{lookup, without, Json, Members, Values};
use vstd::prelude::*;

verus! {

/// `fun` can be called on every value whose content is `j`.
pub open spec fn accepts<O, F: Fn(Values) -> O>(fun: F, j: Json) -> bool {
    forall|v: Values| v@ == j ==> call_requires(fun, (v,))
}

/// `fun` can be called on a reference to every value whose content is `j`.
pub open spec fn accepts_ref<O, F: Fn(&Values) -> O>(fun: F, j: Json) -> bool {
    forall|v: Values| v@ == j ==> call_requires(fun, (&v,))
}

/// `out` is what `fun` may give for a value whose content is `j`.
pub open spec fn gives<O, F: Fn(Values) -> O>(fun: F, j: Json, out: O) -> bool {
    exists|v: Values| v@ == j && call_ensures(fun, (v,), out)
}

/// `out` is what `fun` may give for a reference to a value whose content is `j`.
pub open spec fn gives_ref<O, F: Fn(&Values) -> O>(fun: F, j: Json, out: O) -> bool {
    exists|v: Values| v@ == j && call_ensures(fun, (&v,), out)
}

/// Pulling one field out of the members of an object and converting it. A field
/// that is absent is an error with an empty message, never a default; a field
/// that was taken out is absent afterwards.
pub trait SerializeHelper<T> {
    /// The members that the fields are pulled out of.
    spec fn members(&self) -> Seq<(Seq<char>, Json)>;

    /// The field `attr`, converted by `fun`. The field must be there and `fun` must
    /// convert it.
    fn get_val_unsafe<F: Fn(&Values) -> Option<T>>(&self, attr: &str, fun: F) -> (r: T)
        requires
            lookup(self.members(), attr@) matches Some(j) && accepts_ref(fun, j) && !gives_ref(
                fun,
                j,
                None::<T>,
            ),
        ensures
            gives_ref(fun, lookup(self.members(), attr@)->0, Some(r)),
    ;

    /// The field `attr`, converted by `fun`; `None` where the field is absent or
    /// `fun` gives `None`.
    fn get_val_opt<F: Fn(&Values) -> Option<T>>(&self, attr: &str, fun: F) -> (r: Option<T>)
        requires
            lookup(self.members(), attr@) matches Some(j) ==> accepts_ref(fun, j),
        ensures
            match lookup(self.members(), attr@) {
                Some(j) => gives_ref(fun, j, r),
                None => r is None,
            },
    ;

    /// The field `attr`, converted by `fun`; an error where the field is absent or
    /// `fun` gives `None`.
    fn get_val_res<F: Fn(&Values) -> Option<T>>(&self, attr: &str, fun: F) -> (r: Result<
        T,
        ParseError,
    >)
        requires
            lookup(self.members(), attr@) matches Some(j) ==> accepts_ref(fun, j),
        ensures
            match lookup(self.members(), attr@) {
                Some(j) => match r {
                    Ok(t) => gives_ref(fun, j, Some(t)),
                    Err(e) => gives_ref(fun, j, None::<T>) && e@ == Seq::<char>::empty(),
                },
                None => r matches Err(e) && e@ == Seq::<char>::empty(),
            },
    ;

    /// Takes the field `attr` out and converts it by `fun`; an error where the
    /// field is absent or `fun` gives `None`.
    fn rm_val<F: Fn(Values) -> Option<T>>(&mut self, attr: &str, fun: F) -> (r: Result<
        T,
        ParseError,
    >)
        requires
            lookup(old(self).members(), attr@) matches Some(j) ==> accepts(fun, j),
        ensures
            final(self).members() == without(old(self).members(), attr@),
            lookup(final(self).members(), attr@) is None,
            match lookup(old(self).members(), attr@) {
                Some(j) => match r {
                    Ok(t) => gives(fun, j, Some(t)),
                    Err(e) => gives(fun, j, None::<T>) && e@ == Seq::<char>::empty(),
                },
                None => r matches Err(e) && e@ == Seq::<char>::empty(),
            },
    ;

    /// Takes the field `attr` out and converts it by `fun`, whose error is handed
    /// on as it is; an error with an empty message where the field is absent.
    fn map_val<F: Fn(Values) -> Result<T, ParseError>>(&mut self, attr: &str, fun: F) -> (r:
        Result<T, ParseError>)
        requires
            lookup(old(self).members(), attr@) matches Some(j) ==> accepts(fun, j),
        ensures
            final(self).members() == without(old(self).members(), attr@),
            lookup(final(self).members(), attr@) is None,
            match lookup(old(self).members(), attr@) {
                Some(j) => gives(fun, j, r),
                None => r matches Err(e) && e@ == Seq::<char>::empty(),
            },
    ;

    /// Converts the field `attr` by `fun` and leaves it where it is; the error of
    /// `fun` is handed on as it is; an error with an empty message where the field
    /// is absent.
    fn map_ref_val<F: Fn(&Values) -> Result<T, ParseError>>(&mut self, attr: &str, fun: F) -> (r:
        Result<T, ParseError>)
        requires
            lookup(old(self).members(), attr@) matches Some(j) ==> accepts_ref(fun, j),
        ensures
            final(self).members() == old(self).members(),
            match lookup(old(self).members(), attr@) {
                Some(j) => gives_ref(fun, j, r),
                None => r matches Err(e) && e@ == Seq::<char>::empty(),
            },
    ;

    /// Takes the field `attr` out and converts it by `fun`; every error of `fun`
    /// becomes an error with an empty message, as an absent field does.
    fn map_val_and_err<E, F: Fn(Values) -> Result<T, E>>(&mut self, attr: &str, fun: F) -> (r:
        Result<T, ParseError>)
        requires
            lookup(old(self).members(), attr@) matches Some(j) ==> accepts(fun, j),
        ensures
            final(self).members() == without(old(self).members(), attr@),
            lookup(final(self).members(), attr@) is None,
            match lookup(old(self).members(), attr@) {
                Some(j) => match r {
                    Ok(t) => gives(fun, j, Ok::<T, E>(t)),
                    Err(e) => e@ == Seq::<char>::empty() && exists|x: E|
                        gives(fun, j, Err::<T, E>(x)),
                },
                None => r matches Err(e) && e@ == Seq::<char>::empty(),
            },
    ;

    /// Takes the field `attr` out and converts it by `fun`, which may give `None`;
    /// an error where the field is absent.
    fn map_opt_val<F: Fn(Values) -> Option<T>>(&mut self, attr: &str, fun: F) -> (r: Result<
        Option<T>,
        ParseError,
    >)
        requires
            lookup(old(self).members(), attr@) matches Some(j) ==> accepts(fun, j),
        ensures
            final(self).members() == without(old(self).members(), attr@),
            lookup(final(self).members(), attr@) is None,
            match lookup(old(self).members(), attr@) {
                Some(j) => r matches Ok(o) && gives(fun, j, o),
                None => r matches Err(e) && e@ == Seq::<char>::empty(),
            },
    ;
}

impl<T> SerializeHelper<T> for Members {
    open spec fn members(&self) -> Seq<(Seq<char>, Json)> {
        self@
    }

    fn get_val_unsafe<F: Fn(&Values) -> Option<T>>(&self, attr: &str, fun: F) -> (r: T) {
        match self.get(attr) {
            Some(v) => {
                let out = fun(v);
                assert(gives_ref(fun, v@, out));
                match out {
                    Some(t) => t,
                    None => {
                        proof {
                            assert(false);
                        }
                        unreached()
                    },
                }
            },
            None => {
                proof {
                    assert(false);
                }
                unreached()
            },
        }
    }

    fn get_val_opt<F: Fn(&Values) -> Option<T>>(&self, attr: &str, fun: F) -> (r: Option<T>) {
        match self.get(attr) {
            Some(v) => {
                let out = fun(v);
                assert(gives_ref(fun, v@, out));
                out
            },
            None => None,
        }
    }

    fn get_val_res<F: Fn(&Values) -> Option<T>>(&self, attr: &str, fun: F) -> (r: Result<
        T,
        ParseError,
    >) {
        match self.get(attr) {
            Some(v) => {
                let out = fun(v);
                assert(gives_ref(fun, v@, out));
                match out {
                    Some(t) => Ok(t),
                    None => Err(ParseError::new()),
                }
            },
            None => Err(ParseError::new()),
        }
    }

    fn rm_val<F: Fn(Values) -> Option<T>>(&mut self, attr: &str, fun: F) -> (r: Result<
        T,
        ParseError,
    >) {
        match self.remove(attr) {
            Some(v) => {
                let ghost j = v@;
                let out = fun(v);
                assert(gives(fun, j, out));
                match out {
                    Some(t) => Ok(t),
                    None => Err(ParseError::new()),
                }
            },
            None => Err(ParseError::new()),
        }
    }

    fn map_val<F: Fn(Values) -> Result<T, ParseError>>(&mut self, attr: &str, fun: F) -> (r:
        Result<T, ParseError>) {
        match self.remove(attr) {
            Some(v) => {
                let ghost j = v@;
                let out = fun(v);
                assert(gives(fun, j, out));
                out
            },
            None => Err(ParseError::new()),
        }
    }

    fn map_ref_val<F: Fn(&Values) -> Result<T, ParseError>>(&mut self, attr: &str, fun: F) -> (r:
        Result<T, ParseError>) {
        match self.get(attr) {
            Some(v) => {
                let out = fun(v);
                assert(gives_ref(fun, v@, out));
                out
            },
            None => Err(ParseError::new()),
        }
    }

    fn map_val_and_err<E, F: Fn(Values) -> Result<T, E>>(&mut self, attr: &str, fun: F) -> (r:
        Result<T, ParseError>) {
        match self.remove(attr) {
            Some(v) => {
                let ghost j = v@;
                let out = fun(v);
                assert(gives(fun, j, out));
                match out {
                    Ok(t) => Ok(t),
                    Err(x) => {
                        assert(gives(fun, j, Err::<T, E>(x)));
                        Err(ParseError::new())
                    },
                }
            },
            None => Err(ParseError::new()),
        }
    }

    fn map_opt_val<F: Fn(Values) -> Option<T>>(&mut self, attr: &str, fun: F) -> (r: Result<
        Option<T>,
        ParseError,
    >) {
        match self.remove(attr) {
            Some(v) => {
                let ghost j = v@;
                let out = fun(v);
                assert(gives(fun, j, out));
                Ok(out)
            },
            None => Err(ParseError::new()),
        }
    }
}

} // verus!
