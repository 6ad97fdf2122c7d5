use vstd::prelude::*;

verus! {

/// The bytes of the keyword `null`.
pub open spec fn kw_null() -> Seq<u8> {
    seq![110u8, 117u8, 108u8, 108u8]
}

/// The bytes of the keyword `null`.
pub fn kw_null_bytes() -> (r: Vec<u8>)
    ensures
        r@ == kw_null(),
{
    let r = vec![110u8, 117u8, 108u8, 108u8];
    assert(r@ =~= kw_null());
    r
}

/// The bytes of the keyword `true`.
pub open spec fn kw_true() -> Seq<u8> {
    seq![116u8, 114u8, 117u8, 101u8]
}

/// The bytes of the keyword `true`.
pub fn kw_true_bytes() -> (r: Vec<u8>)
    ensures
        r@ == kw_true(),
{
    let r = vec![116u8, 114u8, 117u8, 101u8];
    assert(r@ =~= kw_true());
    r
}

/// The bytes of the keyword `false`.
pub open spec fn kw_false() -> Seq<u8> {
    seq![102u8, 97u8, 108u8, 115u8, 101u8]
}

/// The bytes of the keyword `false`.
pub fn kw_false_bytes() -> (r: Vec<u8>)
    ensures
        r@ == kw_false(),
{
    let r = vec![102u8, 97u8, 108u8, 115u8, 101u8];
    assert(r@ =~= kw_false());
    r
}

/// The bytes of a single space.
pub open spec fn space() -> Seq<u8> {
    seq![32u8]
}

/// The bytes of a single space.
pub fn space_bytes() -> (r: Vec<u8>)
    ensures
        r@ == space(),
{
    let r = vec![32u8];
    assert(r@ =~= space());
    r
}

/// The bytes of a line feed.
pub open spec fn newline() -> Seq<u8> {
    seq![10u8]
}

/// The bytes of a line feed.
pub fn newline_bytes() -> (r: Vec<u8>)
    ensures
        r@ == newline(),
{
    let r = vec![10u8];
    assert(r@ =~= newline());
    r
}

/// The bytes of the opening bracket of an array.
pub open spec fn open_array() -> Seq<u8> {
    seq![91u8]
}

/// The bytes of the opening bracket of an array.
pub fn open_array_bytes() -> (r: Vec<u8>)
    ensures
        r@ == open_array(),
{
    let r = vec![91u8];
    assert(r@ =~= open_array());
    r
}

/// The bytes of the closing bracket of an array.
pub open spec fn close_array() -> Seq<u8> {
    seq![93u8]
}

/// The bytes of the closing bracket of an array.
pub fn close_array_bytes() -> (r: Vec<u8>)
    ensures
        r@ == close_array(),
{
    let r = vec![93u8];
    assert(r@ =~= close_array());
    r
}

/// The bytes of the opening of a dictionary.
pub open spec fn open_dict() -> Seq<u8> {
    seq![60u8, 60u8]
}

/// The bytes of the opening of a dictionary.
pub fn open_dict_bytes() -> (r: Vec<u8>)
    ensures
        r@ == open_dict(),
{
    let r = vec![60u8, 60u8];
    assert(r@ =~= open_dict());
    r
}

/// The bytes of the closing of a dictionary.
pub open spec fn close_dict() -> Seq<u8> {
    seq![62u8, 62u8]
}

/// The bytes of the closing of a dictionary.
pub fn close_dict_bytes() -> (r: Vec<u8>)
    ensures
        r@ == close_dict(),
{
    let r = vec![62u8, 62u8];
    assert(r@ =~= close_dict());
    r
}

/// The bytes of the opening of a hexadecimal string.
pub open spec fn open_hex() -> Seq<u8> {
    seq![60u8]
}

/// The bytes of the opening of a hexadecimal string.
pub fn open_hex_bytes() -> (r: Vec<u8>)
    ensures
        r@ == open_hex(),
{
    let r = vec![60u8];
    assert(r@ =~= open_hex());
    r
}

/// The bytes of the closing of a hexadecimal string.
pub open spec fn close_hex() -> Seq<u8> {
    seq![62u8]
}

/// The bytes of the opening of a literal string.
pub open spec fn open_paren() -> Seq<u8> {
    seq![40u8]
}

/// The bytes of the opening of a literal string.
pub fn open_paren_bytes() -> (r: Vec<u8>)
    ensures
        r@ == open_paren(),
{
    let r = vec![40u8];
    assert(r@ =~= open_paren());
    r
}

/// The bytes of the closing of a literal string.
pub open spec fn close_paren() -> Seq<u8> {
    seq![41u8]
}

/// The bytes of the solidus that starts a name.
pub open spec fn slash() -> Seq<u8> {
    seq![47u8]
}

/// The bytes of the solidus that starts a name.
pub fn slash_bytes() -> (r: Vec<u8>)
    ensures
        r@ == slash(),
{
    let r = vec![47u8];
    assert(r@ =~= slash());
    r
}

/// The bytes of the keyword that opens stream data.
pub open spec fn stream_start() -> Seq<u8> {
    seq![115u8, 116u8, 114u8, 101u8, 97u8, 109u8, 10u8]
}

/// The bytes of the keyword that opens stream data.
pub fn stream_start_bytes() -> (r: Vec<u8>)
    ensures
        r@ == stream_start(),
{
    let r = vec![115u8, 116u8, 114u8, 101u8, 97u8, 109u8, 10u8];
    assert(r@ =~= stream_start());
    r
}

/// The bytes of the keyword that closes stream data.
pub open spec fn stream_end() -> Seq<u8> {
    seq![10u8, 101u8, 110u8, 100u8, 115u8, 116u8, 114u8, 101u8, 97u8, 109u8]
}

/// The bytes of the keyword that closes stream data.
pub fn stream_end_bytes() -> (r: Vec<u8>)
    ensures
        r@ == stream_end(),
{
    let r = vec![10u8, 101u8, 110u8, 100u8, 115u8, 116u8, 114u8, 101u8, 97u8, 109u8];
    assert(r@ =~= stream_end());
    r
}

/// The bytes of the suffix of an indirect reference.
pub open spec fn ref_suffix() -> Seq<u8> {
    seq![32u8, 82u8]
}

/// The bytes of the suffix of an indirect object header.
pub open spec fn obj_suffix() -> Seq<u8> {
    seq![32u8, 111u8, 98u8, 106u8, 10u8]
}

/// The bytes of the suffix of an indirect object header.
pub fn obj_suffix_bytes() -> (r: Vec<u8>)
    ensures
        r@ == obj_suffix(),
{
    let r = vec![32u8, 111u8, 98u8, 106u8, 10u8];
    assert(r@ =~= obj_suffix());
    r
}

/// The bytes of the end of an indirect object.
pub open spec fn endobj() -> Seq<u8> {
    seq![10u8, 101u8, 110u8, 100u8, 111u8, 98u8, 106u8, 10u8]
}

/// The bytes of the end of an indirect object.
pub fn endobj_bytes() -> (r: Vec<u8>)
    ensures
        r@ == endobj(),
{
    let r = vec![10u8, 101u8, 110u8, 100u8, 111u8, 98u8, 106u8, 10u8];
    assert(r@ =~= endobj());
    r
}

/// The bytes of the keyword that opens a cross-reference table.
pub open spec fn xref_kw() -> Seq<u8> {
    seq![120u8, 114u8, 101u8, 102u8, 10u8]
}

/// The bytes of the keyword that opens a cross-reference table.
pub fn xref_kw_bytes() -> (r: Vec<u8>)
    ensures
        r@ == xref_kw(),
{
    let r = vec![120u8, 114u8, 101u8, 102u8, 10u8];
    assert(r@ =~= xref_kw());
    r
}

/// The bytes of the suffix of an in-use table entry.
pub open spec fn in_use_suffix() -> Seq<u8> {
    seq![32u8, 110u8, 32u8, 10u8]
}

/// The bytes of the suffix of an in-use table entry.
pub fn in_use_suffix_bytes() -> (r: Vec<u8>)
    ensures
        r@ == in_use_suffix(),
{
    let r = vec![32u8, 110u8, 32u8, 10u8];
    assert(r@ =~= in_use_suffix());
    r
}

/// The bytes of the suffix of a free table entry.
pub open spec fn free_suffix() -> Seq<u8> {
    seq![32u8, 102u8, 32u8, 10u8]
}

/// The bytes of the suffix of a free table entry.
pub fn free_suffix_bytes() -> (r: Vec<u8>)
    ensures
        r@ == free_suffix(),
{
    let r = vec![32u8, 102u8, 32u8, 10u8];
    assert(r@ =~= free_suffix());
    r
}

/// The bytes of a free table entry that can never be reused.
pub open spec fn unusable_free_line() -> Seq<u8> {
    seq![48u8, 48u8, 48u8, 48u8, 48u8, 48u8, 48u8, 48u8, 48u8, 48u8, 32u8, 54u8, 53u8, 53u8, 51u8, 53u8, 32u8, 102u8, 32u8, 10u8]
}

/// The bytes of a free table entry that can never be reused.
pub fn unusable_free_line_bytes() -> (r: Vec<u8>)
    ensures
        r@ == unusable_free_line(),
{
    let r = vec![48u8, 48u8, 48u8, 48u8, 48u8, 48u8, 48u8, 48u8, 48u8, 48u8, 32u8, 54u8, 53u8, 53u8, 51u8, 53u8, 32u8, 102u8, 32u8, 10u8];
    assert(r@ =~= unusable_free_line());
    r
}

/// The bytes of the keyword that opens a trailer.
pub open spec fn trailer_kw() -> Seq<u8> {
    seq![116u8, 114u8, 97u8, 105u8, 108u8, 101u8, 114u8, 10u8]
}

/// The bytes of the keyword that opens a trailer.
pub fn trailer_kw_bytes() -> (r: Vec<u8>)
    ensures
        r@ == trailer_kw(),
{
    let r = vec![116u8, 114u8, 97u8, 105u8, 108u8, 101u8, 114u8, 10u8];
    assert(r@ =~= trailer_kw());
    r
}

/// The bytes of the keyword before the cross-reference offset.
pub open spec fn startxref_kw() -> Seq<u8> {
    seq![10u8, 115u8, 116u8, 97u8, 114u8, 116u8, 120u8, 114u8, 101u8, 102u8, 10u8]
}

/// The bytes of the keyword before the cross-reference offset.
pub fn startxref_kw_bytes() -> (r: Vec<u8>)
    ensures
        r@ == startxref_kw(),
{
    let r = vec![10u8, 115u8, 116u8, 97u8, 114u8, 116u8, 120u8, 114u8, 101u8, 102u8, 10u8];
    assert(r@ =~= startxref_kw());
    r
}

/// The bytes of the end-of-file marker.
pub open spec fn eof_marker() -> Seq<u8> {
    seq![10u8, 37u8, 37u8, 69u8, 79u8, 70u8]
}

/// The bytes of the end-of-file marker.
pub fn eof_marker_bytes() -> (r: Vec<u8>)
    ensures
        r@ == eof_marker(),
{
    let r = vec![10u8, 37u8, 37u8, 69u8, 79u8, 70u8];
    assert(r@ =~= eof_marker());
    r
}

/// The bytes of the start of the file header.
pub open spec fn header_prefix() -> Seq<u8> {
    seq![37u8, 80u8, 68u8, 70u8, 45u8]
}

/// The bytes of the start of the file header.
pub fn header_prefix_bytes() -> (r: Vec<u8>)
    ensures
        r@ == header_prefix(),
{
    let r = vec![37u8, 80u8, 68u8, 70u8, 45u8];
    assert(r@ =~= header_prefix());
    r
}

/// The bytes of the percent sign that starts a comment.
pub open spec fn percent() -> Seq<u8> {
    seq![37u8]
}

/// The bytes of the percent sign that starts a comment.
pub fn percent_bytes() -> (r: Vec<u8>)
    ensures
        r@ == percent(),
{
    let r = vec![37u8];
    assert(r@ =~= percent());
    r
}

/// The bytes of the version string 1.5.
pub open spec fn version_1_5() -> Seq<u8> {
    seq![49u8, 46u8, 53u8]
}

/// The bytes of the version string 1.5.
pub fn version_1_5_bytes() -> (r: Vec<u8>)
    ensures
        r@ == version_1_5(),
{
    let r = vec![49u8, 46u8, 53u8];
    assert(r@ =~= version_1_5());
    r
}

/// The bytes of the key `Type`.
pub open spec fn key_type() -> Seq<u8> {
    seq![84u8, 121u8, 112u8, 101u8]
}

/// The bytes of the key `Type`.
pub fn key_type_bytes() -> (r: Vec<u8>)
    ensures
        r@ == key_type(),
{
    let r = vec![84u8, 121u8, 112u8, 101u8];
    assert(r@ =~= key_type());
    r
}

/// The bytes of the key `Size`.
pub open spec fn key_size() -> Seq<u8> {
    seq![83u8, 105u8, 122u8, 101u8]
}

/// The bytes of the key `Size`.
pub fn key_size_bytes() -> (r: Vec<u8>)
    ensures
        r@ == key_size(),
{
    let r = vec![83u8, 105u8, 122u8, 101u8];
    assert(r@ =~= key_size());
    r
}

/// The bytes of the key `W`.
pub open spec fn key_w() -> Seq<u8> {
    seq![87u8]
}

/// The bytes of the key `W`.
pub fn key_w_bytes() -> (r: Vec<u8>)
    ensures
        r@ == key_w(),
{
    let r = vec![87u8];
    assert(r@ =~= key_w());
    r
}

/// The bytes of the key `Index`.
pub open spec fn key_index() -> Seq<u8> {
    seq![73u8, 110u8, 100u8, 101u8, 120u8]
}

/// The bytes of the key `Index`.
pub fn key_index_bytes() -> (r: Vec<u8>)
    ensures
        r@ == key_index(),
{
    let r = vec![73u8, 110u8, 100u8, 101u8, 120u8];
    assert(r@ =~= key_index());
    r
}

/// The bytes of the key `Filter`.
pub open spec fn key_filter() -> Seq<u8> {
    seq![70u8, 105u8, 108u8, 116u8, 101u8, 114u8]
}

/// The bytes of the key `Filter`.
pub fn key_filter_bytes() -> (r: Vec<u8>)
    ensures
        r@ == key_filter(),
{
    let r = vec![70u8, 105u8, 108u8, 116u8, 101u8, 114u8];
    assert(r@ =~= key_filter());
    r
}

/// The bytes of the key `Length`.
pub open spec fn key_length() -> Seq<u8> {
    seq![76u8, 101u8, 110u8, 103u8, 116u8, 104u8]
}

/// The bytes of the key `Length`.
pub fn key_length_bytes() -> (r: Vec<u8>)
    ensures
        r@ == key_length(),
{
    let r = vec![76u8, 101u8, 110u8, 103u8, 116u8, 104u8];
    assert(r@ =~= key_length());
    r
}

/// The bytes of the key `Encrypt`.
pub open spec fn key_encrypt() -> Seq<u8> {
    seq![69u8, 110u8, 99u8, 114u8, 121u8, 112u8, 116u8]
}

/// The bytes of the key `Encrypt`.
pub fn key_encrypt_bytes() -> (r: Vec<u8>)
    ensures
        r@ == key_encrypt(),
{
    let r = vec![69u8, 110u8, 99u8, 114u8, 121u8, 112u8, 116u8];
    assert(r@ =~= key_encrypt());
    r
}

/// The bytes of the key `N`.
pub open spec fn key_n() -> Seq<u8> {
    seq![78u8]
}

/// The bytes of the key `N`.
pub fn key_n_bytes() -> (r: Vec<u8>)
    ensures
        r@ == key_n(),
{
    let r = vec![78u8];
    assert(r@ =~= key_n());
    r
}

/// The bytes of the key `First`.
pub open spec fn key_first() -> Seq<u8> {
    seq![70u8, 105u8, 114u8, 115u8, 116u8]
}

/// The bytes of the key `First`.
pub fn key_first_bytes() -> (r: Vec<u8>)
    ensures
        r@ == key_first(),
{
    let r = vec![70u8, 105u8, 114u8, 115u8, 116u8];
    assert(r@ =~= key_first());
    r
}

/// The bytes of the key `Linearized`.
pub open spec fn key_linearized() -> Seq<u8> {
    seq![76u8, 105u8, 110u8, 101u8, 97u8, 114u8, 105u8, 122u8, 101u8, 100u8]
}

/// The bytes of the key `Linearized`.
pub fn key_linearized_bytes() -> (r: Vec<u8>)
    ensures
        r@ == key_linearized(),
{
    let r = vec![76u8, 105u8, 110u8, 101u8, 97u8, 114u8, 105u8, 122u8, 101u8, 100u8];
    assert(r@ =~= key_linearized());
    r
}

/// The bytes of the type name `XRef`.
pub open spec fn name_xref() -> Seq<u8> {
    seq![88u8, 82u8, 101u8, 102u8]
}

/// The bytes of the type name `XRef`.
pub fn name_xref_bytes() -> (r: Vec<u8>)
    ensures
        r@ == name_xref(),
{
    let r = vec![88u8, 82u8, 101u8, 102u8];
    assert(r@ =~= name_xref());
    r
}

/// The bytes of the type name `ObjStm`.
pub open spec fn name_objstm() -> Seq<u8> {
    seq![79u8, 98u8, 106u8, 83u8, 116u8, 109u8]
}

/// The bytes of the type name `ObjStm`.
pub fn name_objstm_bytes() -> (r: Vec<u8>)
    ensures
        r@ == name_objstm(),
{
    let r = vec![79u8, 98u8, 106u8, 83u8, 116u8, 109u8];
    assert(r@ =~= name_objstm());
    r
}

/// The bytes of the filter name `ASCIIHexDecode`.
pub open spec fn name_ascii_hex() -> Seq<u8> {
    seq![65u8, 83u8, 67u8, 73u8, 73u8, 72u8, 101u8, 120u8, 68u8, 101u8, 99u8, 111u8, 100u8, 101u8]
}

/// The bytes of the filter name `ASCIIHexDecode`.
pub fn name_ascii_hex_bytes() -> (r: Vec<u8>)
    ensures
        r@ == name_ascii_hex(),
{
    let r = vec![65u8, 83u8, 67u8, 73u8, 73u8, 72u8, 101u8, 120u8, 68u8, 101u8, 99u8, 111u8, 100u8, 101u8];
    assert(r@ =~= name_ascii_hex());
    r
}

} // verus!
