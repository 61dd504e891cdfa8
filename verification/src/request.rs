//! Requests and their content-addressed identity.

use vstd::prelude::*;
use vstd::utf8::encode_utf8;

use crate::arg::{ArgModel, ArgRef};
use crate::content::ContentId;
use crate::hashing::{
    blake3_digest, enc_bytes, enc_str, feed_bytes, feed_str, feed_u8, lemma_enc_bytes_unambiguous,
    lemma_enc_str_unambiguous, lemma_len_prefix_unambiguous, len_prefix, prefix_range, push_all,
    u64_le,
};
use crate::iri::Iri;
use crate::sorted::{insert_sorted, keys_sorted, kv_get, kv_insert, kv_view, lemma_insert_commutes, lemma_insert_sorted, lookup};
use crate::verb::Verb;

verus! {

/// The abstract value of a [`Request`]: verb, target, and the arguments in
/// name order (each name once).
pub struct RequestModel {
    /// The verb.
    pub verb: Verb,
    /// The target IRI.
    pub target: Seq<char>,
    /// The arguments, sorted by name.
    pub args: Seq<(Seq<char>, ArgModel)>,
}

/// The identity encoding of one argument value.
pub open spec fn arg_encoding(a: ArgModel) -> Seq<u8> {
    match a {
        ArgModel::Reference(iri) => seq![1u8] + enc_str(iri),
        ArgModel::Inline(bytes) => seq![2u8] + enc_bytes(bytes),
        ArgModel::Content(digest) => seq![3u8] + enc_bytes(digest),
    }
}

/// The identity encoding of the arguments, in order.
pub open spec fn args_encoding(args: Seq<(Seq<char>, ArgModel)>) -> Seq<u8>
    decreases args.len(),
{
    if args.len() == 0 {
        Seq::empty()
    } else {
        args_encoding(args.drop_last()) + enc_str(args.last().0) + arg_encoding(args.last().1)
    }
}

/// The canonical encoding a request's identity is the digest of.
pub open spec fn request_encoding(m: RequestModel) -> Seq<u8> {
    enc_str("ikigai.request.v0"@) + seq![m.verb.spec_code()] + enc_str(m.target) + len_prefix(
        m.args.len(),
    ) + args_encoding(m.args)
}

/// A request: a verb applied to a target resource, with named arguments.
///
/// Arguments are held sorted by name, so a request's identity depends only on
/// the *set* of arguments, never on the order they were added.
#[derive(Debug)]
pub struct Request {
    verb: Verb,
    target: Iri,
    args: Vec<(String, ArgRef)>,
}

impl View for Request {
    type V = RequestModel;

    closed spec fn view(&self) -> RequestModel {
        RequestModel { verb: self.verb, target: self.target@, args: kv_view(self.args@) }
    }
}

impl Request {
    #[verifier::type_invariant]
    spec fn args_sorted(&self) -> bool {
        keys_sorted(kv_view(self.args@))
    }

    /// The arguments of a request are always sorted by name, each name once.
    pub fn well_formed(&self) -> (r: bool)
        ensures
            r,
            keys_sorted(self@.args),
    {
        proof {
            use_type_invariant(self);
        }
        true
    }

    /// A request with no arguments.
    pub fn new(verb: Verb, target: Iri) -> (r: Request)
        ensures
            r@.verb == verb,
            r@.target == target@,
            r@.args.len() == 0,
    {
        Request { verb, target, args: Vec::new() }
    }

    /// Add an argument (builder style), replacing any argument of that name.
    pub fn with_arg(self, name: &str, arg: ArgRef) -> (r: Request)
        ensures
            r@.verb == self@.verb,
            r@.target == self@.target,
            r@.args == insert_sorted(self@.args, name@, arg@),
    {
        proof {
            use_type_invariant(&self);
            lemma_insert_sorted(self@.args, name@, arg@);
        }
        let Request { verb, target, mut args } = self;
        kv_insert(&mut args, name.to_owned(), arg);
        Request { verb, target, args }
    }

    /// The same request addressed to another target.
    pub fn with_target(self, target: Iri) -> (r: Request)
        ensures
            r@.verb == self@.verb,
            r@.target == target@,
            r@.args == self@.args,
    {
        proof {
            use_type_invariant(&self);
        }
        let Request { verb, target: _, args } = self;
        Request { verb, target, args }
    }

    /// The verb.
    pub fn verb(&self) -> (r: Verb)
        ensures
            r == self@.verb,
    {
        self.verb
    }

    /// The target resource identifier.
    pub fn target(&self) -> (r: &Iri)
        ensures
            r@ == self@.target,
    {
        &self.target
    }

    /// The arguments, sorted by name.
    pub fn args(&self) -> (r: &Vec<(String, ArgRef)>)
        ensures
            kv_view(r@) == self@.args,
    {
        &self.args
    }

    /// The argument called `name`, if present.
    pub fn arg(&self, name: &str) -> (r: Option<&ArgRef>)
        ensures
            match r {
                Some(a) => lookup(self@.args, name@) == Some(a@),
                None => lookup(self@.args, name@) is None,
            },
    {
        kv_get(&self.args, name)
    }

    /// A copy of this request.
    pub fn duplicate(&self) -> (r: Request)
        ensures
            r@ == self@,
    {
        proof {
            use_type_invariant(self);
        }
        let mut args: Vec<(String, ArgRef)> = Vec::new();
        let mut i: usize = 0;
        while i < self.args.len()
            invariant
                i <= self.args@.len(),
                args@.len() == i,
                kv_view(args@) == kv_view(self.args@).subrange(0, i as int),
            decreases self.args@.len() - i,
        {
            let ghost prev = args@;
            args.push((self.args[i].0.clone(), self.args[i].1.duplicate()));
            assert(args@ == prev.push(args@[i as int]));
            assert(kv_view(args@)[i as int] == kv_view(self.args@)[i as int]);
            assert(kv_view(args@) =~= kv_view(self.args@).subrange(0, i + 1));
            i = i + 1;
        }
        assert(kv_view(args@) =~= kv_view(self.args@));
        Request { verb: self.verb, target: self.target.duplicate(), args }
    }

    /// The content-addressed identity of this request: the digest of its
    /// canonical encoding, which depends only on the verb, the target and the
    /// set of `(name, value-identity)` pairs.
    pub fn id(&self) -> (r: RequestId)
        ensures
            r@ == blake3_digest(request_encoding(self@)),
    {
        let mut enc: Vec<u8> = Vec::new();
        feed_str(&mut enc, "ikigai.request.v0");
        feed_u8(&mut enc, self.verb.code());
        feed_str(&mut enc, self.target.as_str());
        let n = self.args.len();
        let count = u64_le(n as u64);
        push_all(&mut enc, count.as_slice());
        let ghost head = enc@;
        let mut i: usize = 0;
        while i < n
            invariant
                n == self.args@.len(),
                i <= n,
                enc@ == head + args_encoding(kv_view(self.args@).subrange(0, i as int)),
            decreases n - i,
        {
            let ghost before = enc@;
            feed_str(&mut enc, self.args[i].0.as_str());
            match &self.args[i].1 {
                ArgRef::Reference(iri) => {
                    feed_u8(&mut enc, 1);
                    feed_str(&mut enc, iri.as_str());
                },
                ArgRef::Inline(bytes) => {
                    feed_u8(&mut enc, 2);
                    feed_bytes(&mut enc, bytes.as_slice());
                },
                ArgRef::Content(id) => {
                    feed_u8(&mut enc, 3);
                    feed_bytes(&mut enc, id.as_bytes());
                },
            }
            proof {
                let sub = kv_view(self.args@).subrange(0, i + 1);
                assert(sub.drop_last() =~= kv_view(self.args@).subrange(0, i as int));
                assert(sub.last() == (self.args@[i as int].0@, self.args@[i as int].1@));
                assert(enc@ =~= before + enc_str(sub.last().0) + arg_encoding(sub.last().1));
            }
            i = i + 1;
        }
        assert(kv_view(self.args@).subrange(0, n as int) =~= kv_view(self.args@));
        assert(enc@ =~= request_encoding(self@));
        RequestId(ContentId::of(enc.as_slice()))
    }
}

/// The content-addressed identity of a [`Request`] — the kernel's cache key.
#[derive(Clone, Copy, PartialEq, Eq, Hash, Debug)]
pub struct RequestId(ContentId);

impl View for RequestId {
    type V = Seq<u8>;

    closed spec fn view(&self) -> Seq<u8> {
        self.0@
    }
}

impl RequestId {
    /// The underlying content address.
    pub fn content_id(&self) -> (r: ContentId)
        ensures
            r@ == self@,
    {
        self.0
    }

    /// Whether two identities are the same.
    pub fn same(&self, other: &RequestId) -> (r: bool)
        ensures
            r == (self@ == other@),
    {
        self.0.same(&other.0)
    }
}

/// Argument order does not matter: adding two differently-named arguments in
/// either order yields the same request model, hence the same identity.
pub proof fn lemma_argument_order_does_not_matter(
    base: RequestModel,
    n1: Seq<char>,
    a1: ArgModel,
    n2: Seq<char>,
    a2: ArgModel,
)
    requires
        n1 != n2,
    ensures
        ({
            let one = RequestModel {
                args: insert_sorted(insert_sorted(base.args, n1, a1), n2, a2),
                ..base
            };
            let two = RequestModel {
                args: insert_sorted(insert_sorted(base.args, n2, a2), n1, a1),
                ..base
            };
            &&& one == two
            &&& blake3_digest(request_encoding(one)) == blake3_digest(request_encoding(two))
        }),
{
    lemma_insert_commutes(base.args, n1, a1, n2, a2);
}

/// Equal request models have equal identities: the identity is a function of
/// the verb, the target and the argument set alone.
pub proof fn lemma_equal_requests_share_identity(a: RequestModel, b: RequestModel)
    requires
        a == b,
    ensures
        blake3_digest(request_encoding(a)) == blake3_digest(request_encoding(b)),
{
}

/// Whether the lengths an argument's encoding states fit their prefixes.
pub open spec fn arg_encodable(a: (Seq<char>, ArgModel)) -> bool {
    &&& encode_utf8(a.0).len() < prefix_range()
    &&& match a.1 {
        ArgModel::Reference(iri) => encode_utf8(iri).len() < prefix_range(),
        ArgModel::Inline(bytes) => bytes.len() < prefix_range(),
        ArgModel::Content(digest) => digest.len() < prefix_range(),
    }
}

/// Whether every length a request's encoding states fits its prefix, as it
/// does for any request held in memory.
pub open spec fn encodable(m: RequestModel) -> bool {
    &&& encode_utf8(m.target).len() < prefix_range()
    &&& m.args.len() < prefix_range()
    &&& forall|i: int| 0 <= i < m.args.len() ==> arg_encodable(#[trigger] m.args[i])
}

proof fn lemma_arg_unambiguous(a: ArgModel, b: ArgModel, ra: Seq<u8>, rb: Seq<u8>)
    requires
        arg_encodable((Seq::empty(), a)),
        arg_encodable((Seq::empty(), b)),
        arg_encoding(a) + ra == arg_encoding(b) + rb,
    ensures
        a == b,
        ra == rb,
{
    let ea = arg_encoding(a) + ra;
    let eb = arg_encoding(b) + rb;
    assert(ea[0] == eb[0]);
    match a {
        ArgModel::Reference(x) => {
            assert(ea.drop_first() =~= enc_str(x) + ra);
            match b {
                ArgModel::Reference(y) => {
                    assert(eb.drop_first() =~= enc_str(y) + rb);
                    lemma_enc_str_unambiguous(x, y, ra, rb);
                },
                ArgModel::Inline(_) => {},
                ArgModel::Content(_) => {},
            }
        },
        ArgModel::Inline(x) => {
            assert(ea.drop_first() =~= enc_bytes(x) + ra);
            match b {
                ArgModel::Inline(y) => {
                    assert(eb.drop_first() =~= enc_bytes(y) + rb);
                    lemma_enc_bytes_unambiguous(x, y, ra, rb);
                },
                ArgModel::Reference(_) => {},
                ArgModel::Content(_) => {},
            }
        },
        ArgModel::Content(x) => {
            assert(ea.drop_first() =~= enc_bytes(x) + ra);
            match b {
                ArgModel::Content(y) => {
                    assert(eb.drop_first() =~= enc_bytes(y) + rb);
                    lemma_enc_bytes_unambiguous(x, y, ra, rb);
                },
                ArgModel::Reference(_) => {},
                ArgModel::Inline(_) => {},
            }
        },
    }
}

proof fn lemma_args_encoding_front(args: Seq<(Seq<char>, ArgModel)>)
    requires
        args.len() > 0,
    ensures
        args_encoding(args) == enc_str(args[0].0) + arg_encoding(args[0].1) + args_encoding(
            args.drop_first(),
        ),
    decreases args.len(),
{
    if args.len() == 1 {
        assert(args.drop_last().len() == 0);
        assert(args.drop_first().len() == 0);
        assert(args_encoding(args.drop_last()) =~= Seq::<u8>::empty());
        assert(args.last() == args[0]);
        assert(args_encoding(args) =~= enc_str(args[0].0) + arg_encoding(args[0].1));
        assert(args_encoding(args.drop_first()) =~= Seq::<u8>::empty());
        assert(args_encoding(args) =~= enc_str(args[0].0) + arg_encoding(args[0].1) + args_encoding(
            args.drop_first(),
        ));
    } else {
        let init = args.drop_last();
        lemma_args_encoding_front(init);
        assert(init[0] == args[0]);
        assert(init.drop_first() =~= args.drop_first().drop_last());
        assert(args.drop_first().last() == args.last());
        assert(args_encoding(args) =~= enc_str(args[0].0) + arg_encoding(args[0].1) + args_encoding(
            args.drop_first(),
        ));
    }
}

proof fn lemma_args_unambiguous(
    a: Seq<(Seq<char>, ArgModel)>,
    b: Seq<(Seq<char>, ArgModel)>,
    ra: Seq<u8>,
    rb: Seq<u8>,
)
    requires
        a.len() == b.len(),
        forall|i: int| 0 <= i < a.len() ==> arg_encodable(#[trigger] a[i]),
        forall|i: int| 0 <= i < b.len() ==> arg_encodable(#[trigger] b[i]),
        args_encoding(a) + ra == args_encoding(b) + rb,
    ensures
        a == b,
        ra == rb,
    decreases a.len(),
{
    if a.len() == 0 {
        assert(args_encoding(a) + ra =~= ra);
        assert(args_encoding(b) + rb =~= rb);
        assert(a =~= b);
    } else {
        lemma_args_encoding_front(a);
        lemma_args_encoding_front(b);
        let ta = args_encoding(a.drop_first()) + ra;
        let tb = args_encoding(b.drop_first()) + rb;
        assert(arg_encodable(a[0]));
        assert(arg_encodable(b[0]));
        assert(args_encoding(a) + ra =~= enc_str(a[0].0) + (arg_encoding(a[0].1) + ta));
        assert(args_encoding(b) + rb =~= enc_str(b[0].0) + (arg_encoding(b[0].1) + tb));
        lemma_enc_str_unambiguous(a[0].0, b[0].0, arg_encoding(a[0].1) + ta, arg_encoding(b[0].1) + tb);
        assert(arg_encodable((Seq::empty(), a[0].1)));
        assert(arg_encodable((Seq::empty(), b[0].1)));
        lemma_arg_unambiguous(a[0].1, b[0].1, ta, tb);
        assert forall|i: int| 0 <= i < a.drop_first().len() implies arg_encodable(
            #[trigger] a.drop_first()[i],
        ) by {
            assert(a.drop_first()[i] == a[i + 1]);
        }
        assert forall|i: int| 0 <= i < b.drop_first().len() implies arg_encodable(
            #[trigger] b.drop_first()[i],
        ) by {
            assert(b.drop_first()[i] == b[i + 1]);
        }
        lemma_args_unambiguous(a.drop_first(), b.drop_first(), ra, rb);
        assert forall|i: int| 0 <= i < a.len() implies a[i] == b[i] by {
            if i > 0 {
                assert(a[i] == a.drop_first()[i - 1]);
                assert(b[i] == b.drop_first()[i - 1]);
            }
        }
        assert(a =~= b);
    }
}

/// The encoding a request's identity digests determines the request: two
/// requests (whose lengths fit the encoding's prefixes, as any held in
/// memory do) encode alike only when verb, target and every argument agree.
/// Distinct requests therefore share an identity only where BLAKE3 collides.
pub proof fn lemma_encoding_determines_request(a: RequestModel, b: RequestModel)
    requires
        encodable(a),
        encodable(b),
        request_encoding(a) == request_encoding(b),
    ensures
        a == b,
{
    let h = enc_str("ikigai.request.v0"@);
    let ta = enc_str(a.target) + (len_prefix(a.args.len()) + args_encoding(a.args));
    let tb = enc_str(b.target) + (len_prefix(b.args.len()) + args_encoding(b.args));
    let ra = seq![a.verb.spec_code()] + ta;
    let rb = seq![b.verb.spec_code()] + tb;
    assert(request_encoding(a) =~= h + ra);
    assert(request_encoding(b) =~= h + rb);
    assert(ra =~= (h + ra).subrange(h.len() as int, (h + ra).len() as int));
    assert(rb =~= (h + rb).subrange(h.len() as int, (h + rb).len() as int));
    assert(ra == rb);
    assert(ra[0] == rb[0]);
    assert(a.verb == b.verb);
    assert(ta =~= ra.drop_first());
    assert(tb =~= rb.drop_first());
    lemma_enc_str_unambiguous(
        a.target,
        b.target,
        len_prefix(a.args.len()) + args_encoding(a.args),
        len_prefix(b.args.len()) + args_encoding(b.args),
    );
    lemma_len_prefix_unambiguous(a.args.len(), b.args.len(), args_encoding(a.args), args_encoding(b.args));
    assert(args_encoding(a.args) + Seq::<u8>::empty() =~= args_encoding(a.args));
    assert(args_encoding(b.args) + Seq::<u8>::empty() =~= args_encoding(b.args));
    lemma_args_unambiguous(a.args, b.args, Seq::empty(), Seq::empty());
}

} // verus!
