//! What an invocation decides on its own: reading its inline arguments, and
//! folding the provenance of the sub-requests it issued into the expiry and
//! golden threads its own result inherits.

use vstd::prelude::*;
use vstd::utf8::{decode_utf8, valid_utf8};

use crate::arg::{ArgModel, ArgRef};
use crate::error::Error;
use crate::kernel::utf8_text;
use crate::repr::{meet, Expiry};
use crate::request::Request;
use crate::sorted::{lookup, StrSet};
use crate::text::copy_str;

verus! {

/// The inline bytes of argument `name`: missing when absent, invalid when it
/// is a reference or content rather than an inline value.
pub fn inline_arg<'a>(request: &'a Request, name: &str) -> (r: Result<&'a [u8], Error>)
    ensures
        match lookup(request@.args, name@) {
            Some(ArgModel::Inline(b)) => r matches Ok(bytes) && bytes@ == b,
            Some(_) => r matches Err(Error::InvalidArgument { name: n, detail }) && n@ == name@
                && detail@ == "expected an inline value"@,
            None => r matches Err(Error::MissingArgument(n)) && n@ == name@,
        },
{
    match request.arg(name) {
        Some(ArgRef::Inline(bytes)) => Ok(bytes.as_slice()),
        Some(_) => Err(
            Error::InvalidArgument {
                name: copy_str(name),
                detail: copy_str("expected an inline value"),
            },
        ),
        None => Err(Error::MissingArgument(copy_str(name))),
    }
}

/// The inline argument `name` as text: as [`inline_arg`], and invalid when
/// its bytes are not UTF-8.
pub fn inline_str(request: &Request, name: &str) -> (r: Result<String, Error>)
    ensures
        match lookup(request@.args, name@) {
            Some(ArgModel::Inline(b)) => if valid_utf8(b) {
                r matches Ok(s) && s@ == decode_utf8(b)
            } else {
                r matches Err(Error::InvalidArgument { name: n, detail }) && n@ == name@
                    && detail@ == "not valid UTF-8"@
            },
            Some(_) => r matches Err(Error::InvalidArgument { name: n, detail }) && n@ == name@
                && detail@ == "expected an inline value"@,
            None => r matches Err(Error::MissingArgument(n)) && n@ == name@,
        },
{
    let bytes = match inline_arg(request, name) {
        Ok(b) => b,
        Err(e) => {
            return Err(e);
        },
    };
    match utf8_text(bytes) {
        Some(s) => Ok(copy_str(s)),
        None => Err(
            Error::InvalidArgument { name: copy_str(name), detail: copy_str("not valid UTF-8") },
        ),
    }
}

/// The meet of every expiry, `Never` for none: a result is no fresher than
/// its most volatile dependency.
pub open spec fn fold_meet(s: Seq<Expiry>) -> Expiry
    decreases s.len(),
{
    if s.len() == 0 {
        Expiry::Never
    } else {
        meet(fold_meet(s.drop_last()), s.last())
    }
}

/// The provenance of the sub-requests an invocation issued: each one's
/// expiry, and the golden threads of all of them.
#[derive(Debug)]
pub struct DependencyLog {
    expiries: Vec<Expiry>,
    threads: StrSet,
}

impl DependencyLog {
    /// The expiries recorded, in order.
    pub closed spec fn spec_expiries(&self) -> Seq<Expiry> {
        self.expiries@
    }

    /// The golden threads recorded.
    pub closed spec fn spec_threads(&self) -> Set<Seq<char>> {
        self.threads@
    }

    /// Nothing recorded.
    pub fn new() -> (r: DependencyLog)
        ensures
            r.spec_expiries() == Seq::<Expiry>::empty(),
            r.spec_threads() == Set::<Seq<char>>::empty(),
    {
        DependencyLog { expiries: Vec::new(), threads: StrSet::new() }
    }

    /// Record one dependency's expiry and golden threads.
    pub fn record(&mut self, expiry: Expiry, threads: &StrSet)
        ensures
            final(self).spec_expiries() == old(self).spec_expiries().push(expiry),
            final(self).spec_threads() == old(self).spec_threads().union(threads@),
    {
        self.expiries.push(expiry);
        self.threads.extend(threads);
    }

    /// The expiry the dependencies impose: the meet of all recorded.
    pub fn dependency_expiry(&self) -> (r: Expiry)
        ensures
            r == fold_meet(self.spec_expiries()),
    {
        let mut acc = Expiry::Never;
        let mut i: usize = 0;
        while i < self.expiries.len()
            invariant
                i <= self.expiries@.len(),
                acc == fold_meet(self.expiries@.take(i as int)),
            decreases self.expiries@.len() - i,
        {
            proof {
                assert(self.expiries@.take(i + 1).drop_last() =~= self.expiries@.take(i as int));
            }
            acc = acc.most_restrictive(self.expiries[i]);
            i = i + 1;
        }
        proof {
            assert(self.expiries@.take(self.expiries@.len() as int) =~= self.expiries@);
        }
        acc
    }

    /// The golden threads of every dependency.
    pub fn dependency_threads(&self) -> (r: StrSet)
        ensures
            r@ == self.spec_threads(),
    {
        self.threads.duplicate()
    }
}

/// A result is no fresher than any one of its dependencies: if any is
/// volatile so is the fold, the fold is permanent only when every dependency
/// is, and no deadline in the fold is later than a dependency's.
pub proof fn lemma_fold_meet_is_no_fresher(s: Seq<Expiry>, i: int)
    requires
        0 <= i < s.len(),
    ensures
        s[i] is Always ==> fold_meet(s) is Always,
        fold_meet(s) is Never ==> s[i] is Never,
        fold_meet(s) matches Expiry::At(t) ==> (s[i] matches Expiry::At(d) ==> t.0 <= d.0),
    decreases s.len(),
{
    let p = s.drop_last();
    crate::repr::lemma_meet_is_no_fresher(fold_meet(p), s.last());
    if i < s.len() - 1 {
        lemma_fold_meet_is_no_fresher(p, i);
        assert(p[i] == s[i]);
    }
}

} // verus!
