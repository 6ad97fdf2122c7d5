use vstd::prelude::*;

use crate::body::failed_as;
use crate::document::{encrypted, objects_map, Document};
use crate::object::{Object, ObjectId};
use crate::error::{kind_of, ErrorKind, SaveError};
use crate::full_save::{appended, full_save, full_save_fits, lemma_appended, saved_state};
use crate::packing::{
    failed_with, packed_objects, packing_fits, packing_save, packing_state,
};
use crate::save_options::{ObjectStreamConfig, SaveOptions};
use crate::sink::CountingWrite;
use crate::text;
use crate::xref::XrefType;

verus! {

/// Whether byte string `a` sorts before `b`, byte by byte.
pub open spec fn lex_less(a: Seq<u8>, b: Seq<u8>) -> bool
    decreases a.len(),
{
    if a.len() == 0 {
        b.len() > 0
    } else if b.len() == 0 {
        false
    } else if a[0] != b[0] {
        a[0] < b[0]
    } else {
        lex_less(a.drop_first(), b.drop_first())
    }
}

/// Whether a version string sorts before `1.5`, as strings compare.
pub open spec fn version_below(v: Seq<char>) -> bool {
    lex_less(vstd::utf8::encode_utf8(v), text::version_1_5())
}

/// A version raised to `1.5` when it sorts before it.
pub open spec fn raised(v: Seq<char>) -> Seq<char> {
    if version_below(v) {
        seq!['1', '.', '5']
    } else {
        v
    }
}

/// `mid` is `doc` with its version given by `version` and its cross-reference type by
/// `xref_type`.
pub open spec fn reshaped(doc: Document, mid: Document, version: Seq<char>, xref_type: XrefType) -> bool {
    &&& mid.version@ == version
    &&& mid.binary_mark == doc.binary_mark
    &&& mid.trailer == doc.trailer
    &&& mid.reference_table.cross_reference_type == xref_type
    &&& mid.reference_table.entries == doc.reference_table.entries
    &&& mid.reference_table.size == doc.reference_table.size
    &&& mid.objects == doc.objects
    &&& mid.max_id == doc.max_id
    &&& mid.encryption_state == doc.encryption_state
}

/// The capacity of the object streams a save builds: the configured one, at most 65,536.
pub open spec fn stream_size(config: ObjectStreamConfig) -> nat {
    if config.max_objects_per_stream < 65536 {
        config.max_objects_per_stream as nat
    } else {
        65536
    }
}

/// What a full save of `doc` appends to `before` to give `now`, how it fails, and the
/// document it leaves.
pub open spec fn full_result(doc: Document, after: Document, before: Seq<u8>, now: Seq<u8>, r: Result<(), SaveError>) -> bool {
    let (whole, kind, _w, _x) = full_save(doc, after, 0);
    &&& appended(before, now, whole, r is Ok)
    &&& whole.0.len() <= usize::MAX ==> (r matches Err(e) ==> kind_of(e) == kind)
    &&& r matches Err(e) ==> e is InvalidData || e is InvalidInput
    &&& whole.0.len() <= usize::MAX ==> saved_state(doc, after, 0)
}

/// What a save with object streams of `doc`, whose version is already at least 1.5,
/// appends: a full save without object streams for an encrypted document, a packing save
/// otherwise.
pub open spec fn streams_result(
    doc: Document,
    after: Document,
    size: nat,
    before: Seq<u8>,
    now: Seq<u8>,
    r: Result<(), SaveError>,
) -> bool {
    if encrypted(doc.trailer@, doc.objects@) {
        full_result(doc, after, before, now, r)
    } else {
        let (whole, kind) = packing_save(doc, after, size, 0);
        &&& appended(before, now, whole, r is Ok)
        &&& whole.0.len() <= usize::MAX ==> (r matches Err(e) ==> kind_of(e) == kind)
        &&& r matches Err(e) ==> e is InvalidData || e is InvalidInput || e is Other
        &&& whole.0.len() <= usize::MAX ==> packing_state(doc, after, size, 0)
    }
}

/// The object numbers a save with object streams of `doc` hands out stay within `u32`.
pub open spec fn streams_fit(doc: Document, size: nat) -> bool {
    &&& doc.max_id < u32::MAX
    &&& encrypted(doc.trailer@, doc.objects@) ==> full_save_fits(doc, 0)
    &&& !encrypted(doc.trailer@, doc.objects@) ==> packing_fits(doc, size, 0)
}

/// Whether a save that packs objects has any object to pack.
pub open spec fn has_candidates(doc: Document) -> bool {
    packed_objects(doc.objects@, doc.trailer@).len() > 0
}

/// The error a save with `options` reports before it writes or changes anything: object
/// streams to build with no room in them, or to build while a classic table is kept.
pub open spec fn preflight(doc: Document, options: SaveOptions) -> Option<ErrorKind> {
    if options.use_object_streams && !encrypted(doc.trailer@, doc.objects@) && has_candidates(doc) {
        if options.object_stream_config.max_objects_per_stream == 0 {
            Some(ErrorKind::InvalidInput)
        } else if !options.use_xref_streams && doc.reference_table.cross_reference_type
            == XrefType::CrossReferenceTable {
            Some(ErrorKind::Unsupported)
        } else {
            None
        }
    } else {
        None
    }
}

/// The version and cross-reference type a save with `options` gives the document before
/// it writes: a cross-reference stream, and at least version 1.5, when asked for.
pub open spec fn prepared(doc: Document, mid: Document, options: SaveOptions) -> bool {
    reshaped(
        doc,
        mid,
        if options.use_xref_streams {
            raised(doc.version@)
        } else {
            doc.version@
        },
        if options.use_xref_streams {
            XrefType::CrossReferenceStream
        } else {
            doc.reference_table.cross_reference_type
        },
    )
}

/// The object numbers a save with `options` of the prepared document `mid` hands out stay
/// within `u32`.
pub open spec fn options_fit(mid: Document, options: SaveOptions) -> bool {
    if options.use_object_streams {
        forall|next: Document| #[trigger]
            reshaped(mid, next, raised(mid.version@), mid.reference_table.cross_reference_type)
                ==> streams_fit(next, stream_size(options.object_stream_config))
    } else {
        mid.max_id < u32::MAX && full_save_fits(mid, 0)
    }
}

/// What a save with `options` of the prepared document `mid` appends and leaves: a save
/// with object streams, its version raised to 1.5 first, or a full save.
pub open spec fn options_result(
    mid: Document,
    after: Document,
    options: SaveOptions,
    before: Seq<u8>,
    now: Seq<u8>,
    r: Result<(), SaveError>,
) -> bool {
    if options.use_object_streams {
        exists|next: Document| #[trigger]
            reshaped(mid, next, raised(mid.version@), mid.reference_table.cross_reference_type)
                && streams_result(
                next,
                after,
                stream_size(options.object_stream_config),
                before,
                now,
                r,
            )
    } else {
        full_result(mid, after, before, now, r)
    }
}

/// The options of a modern save: object streams and a cross-reference stream, with the
/// default object stream configuration.
pub open spec fn modern_options() -> SaveOptions {
    SaveOptions {
        use_object_streams: true,
        use_xref_streams: true,
        linearize: false,
        object_stream_config: ObjectStreamConfig { max_objects_per_stream: 100, compression_level: 6 },
    }
}

/// `a` sorts at or after `b`, byte by byte: `b` is a prefix of `a`, or at the first place
/// where they differ `a` has the greater byte.
pub open spec fn sorts_at_or_after(a: Seq<u8>, b: Seq<u8>) -> bool {
    ||| (b.len() <= a.len() && a.take(b.len() as int) == b)
    ||| exists|j: int|
        0 <= j < a.len() && j < b.len() && a.take(j) == b.take(j) && #[trigger] a[j] > b[j]
}

/// Sorting before is the opposite of sorting at or after.
proof fn lemma_lex_less_total(a: Seq<u8>, b: Seq<u8>)
    ensures
        lex_less(a, b) <==> !sorts_at_or_after(a, b),
    decreases a.len(),
{
    if a.len() == 0 {
        assert(a.take(0) =~= Seq::<u8>::empty());
        if b.len() == 0 {
            assert(a.take(b.len() as int) =~= b);
        }
    } else if b.len() == 0 {
        assert(a.take(0) =~= b);
    } else if a[0] != b[0] {
        if a[0] > b[0] {
            assert(a.take(0) =~= b.take(0));
            assert(a[0] > b[0]);
        } else {
            if b.len() <= a.len() && a.take(b.len() as int) == b {
                assert(a.take(b.len() as int)[0] == a[0]);
            }
            if exists|j: int| 0 <= j < a.len() && j < b.len() && a.take(j) == b.take(j) && #[trigger] a[j] > b[j] {
                let j = choose|j: int| 0 <= j < a.len() && j < b.len() && a.take(j) == b.take(j) && #[trigger] a[j] > b[j];
                if j > 0 {
                    assert(a.take(j)[0] == b.take(j)[0]);
                }
            }
        }
    } else {
        let a1 = a.drop_first();
        let b1 = b.drop_first();
        lemma_lex_less_total(a1, b1);
        if b1.len() <= a1.len() && a1.take(b1.len() as int) == b1 {
            assert(a.take(b.len() as int) =~= seq![a[0]] + a1.take(b1.len() as int));
            assert(b =~= seq![b[0]] + b1);
        }
        if b.len() <= a.len() && a.take(b.len() as int) == b {
            assert(a1.take(b1.len() as int) =~= a.take(b.len() as int).drop_first());
        }
        if exists|j: int| 0 <= j < a1.len() && j < b1.len() && a1.take(j) == b1.take(j) && #[trigger] a1[j] > b1[j] {
            let j = choose|j: int| 0 <= j < a1.len() && j < b1.len() && a1.take(j) == b1.take(j) && #[trigger] a1[j] > b1[j];
            assert(a.take(j + 1) =~= seq![a[0]] + a1.take(j));
            assert(b.take(j + 1) =~= seq![b[0]] + b1.take(j));
            assert(a[j + 1] > b[j + 1]);
        }
        if exists|j: int| 0 <= j < a.len() && j < b.len() && a.take(j) == b.take(j) && #[trigger] a[j] > b[j] {
            let j = choose|j: int| 0 <= j < a.len() && j < b.len() && a.take(j) == b.take(j) && #[trigger] a[j] > b[j];
            assert(j > 0);
            assert(a1.take(j - 1) =~= a.take(j).drop_first());
            assert(b1.take(j - 1) =~= b.take(j).drop_first());
            assert(a1[j - 1] > b1[j - 1]);
        }
    }
}

/// A save that asks for version 1.5 features never lowers the version: a version whose
/// text sorts at or after `1.5` is kept as it is, and only one that sorts before it
/// becomes `1.5`.
pub proof fn lemma_version_only_raised(v: Seq<char>)
    ensures
        sorts_at_or_after(vstd::utf8::encode_utf8(v), seq![49u8, 46u8, 53u8]) ==> raised(v) == v,
        !sorts_at_or_after(vstd::utf8::encode_utf8(v), seq![49u8, 46u8, 53u8]) ==> raised(v)
            == seq!['1', '.', '5'],
{
    lemma_lex_less_total(vstd::utf8::encode_utf8(v), seq![49u8, 46u8, 53u8]);
    assert(text::version_1_5() == seq![49u8, 46u8, 53u8]);
}

/// The document a save with options writes keeps its version unless it asks for a
/// cross-reference stream and the version sorts below `1.5`; then the version is `1.5`.
pub proof fn lemma_prepared_version(doc: Document, mid: Document, options: SaveOptions)
    requires
        prepared(doc, mid, options),
    ensures
        sorts_at_or_after(vstd::utf8::encode_utf8(doc.version@), seq![49u8, 46u8, 53u8])
            ==> mid.version@ == doc.version@,
        !options.use_xref_streams ==> mid.version@ == doc.version@,
        options.use_xref_streams && !sorts_at_or_after(
            vstd::utf8::encode_utf8(doc.version@),
            seq![49u8, 46u8, 53u8],
        ) ==> mid.version@ == seq!['1', '.', '5'],
{
    lemma_version_only_raised(doc.version@);
}

/// A save with options never refuses an encrypted document, one whose trailer's
/// `Encrypt` entry refers to a dictionary among its objects: its objects are written one
/// by one, so no object stream is built and no preflight error can arise.
pub proof fn lemma_encrypted_never_refused(doc: Document, options: SaveOptions, id: ObjectId)
    requires
        crate::object::key_value(doc.trailer@, seq![69u8, 110u8, 99u8, 114u8, 121u8, 112u8, 116u8])
            == Some(Object::Reference(id)),
        objects_map(doc.objects@).contains_key(id),
        objects_map(doc.objects@)[id] is Dictionary,
    ensures
        preflight(doc, options) is None,
{
    assert(text::key_encrypt() == seq![69u8, 110u8, 99u8, 114u8, 121u8, 112u8, 116u8]);
}

/// A modern save asks for object streams and a cross-reference stream with room for 100
/// objects in each, so it never stops before writing, and it is a save with these options.
pub proof fn lemma_modern_options(doc: Document)
    ensures
        preflight(doc, modern_options()) is None,
        modern_options().use_object_streams && modern_options().use_xref_streams,
        modern_options().object_stream_config.max_objects_per_stream == 100,
{
}

impl Document {
    /// Whether the version sorts before `1.5`.
    pub fn version_below_1_5(&self) -> (r: bool)
        ensures
            r == version_below(self.version@),
    {
        let a = self.version.as_str().as_bytes();
        let b = text::version_1_5_bytes();
        let ghost sa = a@;
        let ghost sb = b@;
        let mut i: usize = 0;
        assert(sa.skip(0) =~= sa);
        assert(sb.skip(0) =~= sb);
        while i < a.len() && i < b.len()
            invariant
                i <= a@.len(),
                i <= b@.len(),
                sa == a@,
                sb == b@,
                sa == vstd::utf8::encode_utf8(self.version@),
                sb == text::version_1_5(),
                lex_less(sa, sb) == lex_less(sa.skip(i as int), sb.skip(i as int)),
            decreases a@.len() - i,
        {
            let ghost x = sa.skip(i as int);
            let ghost y = sb.skip(i as int);
            assert(x[0] == a@[i as int]);
            assert(y[0] == b@[i as int]);
            if a[i] != b[i] {
                return a[i] < b[i];
            }
            assert(x.drop_first() =~= sa.skip(i + 1));
            assert(y.drop_first() =~= sb.skip(i + 1));
            i = i + 1;
        }
        proof {
            let x = sa.skip(i as int);
            let y = sb.skip(i as int);
            assert(x.len() == 0 || y.len() == 0);
        }
        a.len() - i < b.len() - i
    }

    /// Raises the version to `1.5` when it sorts before it.
    pub fn raise_version(&mut self)
        ensures
            reshaped(
                *old(self),
                *final(self),
                raised(old(self).version@),
                old(self).reference_table.cross_reference_type,
            ),
    {
        if self.version_below_1_5() {
            proof {
                reveal_strlit("1.5");
            }
            self.version = <String as vstd::string::StringExecFns>::from_str("1.5");
            assert(self.version@ =~= seq!['1', '.', '5']);
        }
    }

    /// Whether some object can be packed into an object stream.
    pub fn has_object_stream_candidates(&self) -> (r: bool)
        ensures
            r == has_candidates(*self),
    {
        let positions = self.packed_positions();
        positions.len() > 0
    }

    /// Saves with object streams, after raising the version to 1.5: an encrypted document
    /// is saved without them, since a stream built here could not be encrypted.
    fn save_with_object_streams(&mut self, target: &mut Vec<u8>, options: SaveOptions) -> (r: Result<
        (),
        SaveError,
    >)
        requires
            forall|mid: Document| #[trigger]
                reshaped(
                    *old(self),
                    mid,
                    raised(old(self).version@),
                    old(self).reference_table.cross_reference_type,
                ) ==> streams_fit(mid, stream_size(options.object_stream_config)),
            !encrypted(old(self).trailer@, old(self).objects@) && has_candidates(*old(self))
                ==> options.object_stream_config.max_objects_per_stream > 0
                && old(self).reference_table.cross_reference_type == XrefType::CrossReferenceStream,
        ensures
            exists|mid: Document| #[trigger]
                reshaped(
                    *old(self),
                    mid,
                    raised(old(self).version@),
                    old(self).reference_table.cross_reference_type,
                ) && streams_result(
                    mid,
                    *final(self),
                    stream_size(options.object_stream_config),
                    old(target)@,
                    final(target)@,
                    r,
                ),
    {
        self.raise_version();
        let ghost mid = *self;
        let ghost size_v = stream_size(options.object_stream_config);
        assert(streams_fit(mid, size_v));
        if self.is_encrypted() {
            let r = self.save_to(target);
            assert(streams_result(mid, *self, size_v, old(target)@, target@, r));
            return r;
        }
        let max = options.object_stream_config.max_objects_per_stream;
        let size: usize = if max < 65536 {
            max
        } else {
            65536
        };
        let mut taken: Vec<u8> = Vec::new();
        std::mem::swap(&mut taken, target);
        let mut out = CountingWrite::new(taken, 0);
        let ghost f0 = out;
        let r = self.save_packed(&mut out, size);
        proof {
            let (whole, kind) = packing_save(mid, *self, size as nat, 0);
            lemma_appended(f0, out, whole, r is Ok);
        }
        *target = out.into_inner();
        assert(streams_result(mid, *self, size_v, old(target)@, target@, r));
        r
    }

    /// Saves with options. Before anything is written or changed, a save that would pack
    /// objects into object streams fails with `InvalidInput` when the streams hold no
    /// object, and with `Unsupported` when a classic table would have to locate them.
    /// Then a cross-reference stream, when asked for, becomes the document's kind of
    /// cross-reference data and raises its version to 1.5; the document is saved with
    /// object streams when asked for, without otherwise.
    pub fn save_with_options(&mut self, target: &mut Vec<u8>, options: SaveOptions) -> (r: Result<
        (),
        SaveError,
    >)
        requires
            preflight(*old(self), options) is None ==> forall|mid: Document| #[trigger]
                prepared(*old(self), mid, options) ==> options_fit(mid, options),
        ensures
            preflight(*old(self), options) matches Some(k) ==> (r matches Err(e) && kind_of(e)
                == k),
            preflight(*old(self), options) is Some ==> *final(self) == *old(self),
            preflight(*old(self), options) is Some ==> final(target)@ == old(target)@,
            preflight(*old(self), options) is None ==> exists|mid: Document| #[trigger]
                prepared(*old(self), mid, options) && options_result(
                    mid,
                    *final(self),
                    options,
                    old(target)@,
                    final(target)@,
                    r,
                ),
    {
        let selected = if options.use_xref_streams {
            XrefType::CrossReferenceStream
        } else {
            self.reference_table.cross_reference_type
        };
        let candidates = options.use_object_streams && !self.is_encrypted()
            && self.has_object_stream_candidates();
        if candidates {
            if options.object_stream_config.max_objects_per_stream == 0 {
                return Err(SaveError::InvalidInput("object stream capacity must be greater than zero"));
            }
            if matches!(selected, XrefType::CrossReferenceTable) {
                return Err(
                    SaveError::Unsupported(
                        "object streams require cross-reference authority capable of type-2 compressed entries; hybrid-reference output is not implemented",
                    ),
                );
            }
        }
        let ghost d0 = *self;
        if options.use_xref_streams {
            self.reference_table.cross_reference_type = XrefType::CrossReferenceStream;
            self.raise_version();
        }
        let ghost mid = *self;
        assert(prepared(d0, mid, options));
        assert(options_fit(mid, options));
        if options.use_object_streams {
            let r = self.save_with_object_streams(target, options);
            assert(options_result(mid, *self, options, old(target)@, target@, r));
            r
        } else {
            let r = self.save_to(target);
            assert(options_result(mid, *self, options, old(target)@, target@, r));
            r
        }
    }

    /// Saves with object streams and a cross-reference stream.
    pub fn save_modern(&mut self, target: &mut Vec<u8>) -> (r: Result<(), SaveError>)
        requires
            forall|mid: Document| #[trigger]
                prepared(*old(self), mid, modern_options()) ==> options_fit(mid, modern_options()),
        ensures
            exists|mid: Document| #[trigger]
                prepared(*old(self), mid, modern_options()) && options_result(
                    mid,
                    *final(self),
                    modern_options(),
                    old(target)@,
                    final(target)@,
                    r,
                ),
    {
        let options = SaveOptions { use_object_streams: true, use_xref_streams: true, ..SaveOptions::default() };
        assert(options == modern_options());
        self.save_with_options(target, options)
    }
}

} // verus!
