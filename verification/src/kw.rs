use vstd::prelude::*;

verus! {

// The fixed byte strings of the unified diff and git patch formats. Each one is
// given once as a sequence, for contracts, and once as an array, for code.

/// The bytes of `literal `.
pub open spec fn literal_sp() -> Seq<u8> {
    seq![108u8, 105u8, 116u8, 101u8, 114u8, 97u8, 108u8, 32u8]
}

/// The bytes of `literal `, as an array.
pub fn literal_sp_bytes() -> (r: [u8; 8])
    ensures
        r@ == literal_sp(),
{
    let r: [u8; 8] = [108u8, 105u8, 116u8, 101u8, 114u8, 97u8, 108u8, 32u8];
    assert(r@ =~= literal_sp());
    r
}

/// The bytes of `delta `.
pub open spec fn delta_sp() -> Seq<u8> {
    seq![100u8, 101u8, 108u8, 116u8, 97u8, 32u8]
}

/// The bytes of `delta `, as an array.
pub fn delta_sp_bytes() -> (r: [u8; 6])
    ensures
        r@ == delta_sp(),
{
    let r: [u8; 6] = [100u8, 101u8, 108u8, 116u8, 97u8, 32u8];
    assert(r@ =~= delta_sp());
    r
}

/// The bytes of `diff --git`.
pub open spec fn diff_git() -> Seq<u8> {
    seq![100u8, 105u8, 102u8, 102u8, 32u8, 45u8, 45u8, 103u8, 105u8, 116u8]
}

/// The bytes of `diff --git`, as an array.
pub fn diff_git_bytes() -> (r: [u8; 10])
    ensures
        r@ == diff_git(),
{
    let r: [u8; 10] = [100u8, 105u8, 102u8, 102u8, 32u8, 45u8, 45u8, 103u8, 105u8, 116u8];
    assert(r@ =~= diff_git());
    r
}

/// The bytes of `diff --git `.
pub open spec fn diff_git_sp() -> Seq<u8> {
    seq![100u8, 105u8, 102u8, 102u8, 32u8, 45u8, 45u8, 103u8, 105u8, 116u8, 32u8]
}

/// The bytes of `diff --git `, as an array.
pub fn diff_git_sp_bytes() -> (r: [u8; 11])
    ensures
        r@ == diff_git_sp(),
{
    let r: [u8; 11] = [100u8, 105u8, 102u8, 102u8, 32u8, 45u8, 45u8, 103u8, 105u8, 116u8, 32u8];
    assert(r@ =~= diff_git_sp());
    r
}

/// The bytes of `--- `.
pub open spec fn minus3_sp() -> Seq<u8> {
    seq![45u8, 45u8, 45u8, 32u8]
}

/// The bytes of `--- `, as an array.
pub fn minus3_sp_bytes() -> (r: [u8; 4])
    ensures
        r@ == minus3_sp(),
{
    let r: [u8; 4] = [45u8, 45u8, 45u8, 32u8];
    assert(r@ =~= minus3_sp());
    r
}

/// The bytes of `+++ `.
pub open spec fn plus3_sp() -> Seq<u8> {
    seq![43u8, 43u8, 43u8, 32u8]
}

/// The bytes of `+++ `, as an array.
pub fn plus3_sp_bytes() -> (r: [u8; 4])
    ensures
        r@ == plus3_sp(),
{
    let r: [u8; 4] = [43u8, 43u8, 43u8, 32u8];
    assert(r@ =~= plus3_sp());
    r
}

/// The bytes of `@@ `.
pub open spec fn at2_sp() -> Seq<u8> {
    seq![64u8, 64u8, 32u8]
}

/// The bytes of `@@ `, as an array.
pub fn at2_sp_bytes() -> (r: [u8; 3])
    ensures
        r@ == at2_sp(),
{
    let r: [u8; 3] = [64u8, 64u8, 32u8];
    assert(r@ =~= at2_sp());
    r
}

/// The bytes of ` @@`.
pub open spec fn sp_at2() -> Seq<u8> {
    seq![32u8, 64u8, 64u8]
}

/// The bytes of ` @@`, as an array.
pub fn sp_at2_bytes() -> (r: [u8; 3])
    ensures
        r@ == sp_at2(),
{
    let r: [u8; 3] = [32u8, 64u8, 64u8];
    assert(r@ =~= sp_at2());
    r
}

/// The bytes of `diff `.
pub open spec fn diff_sp() -> Seq<u8> {
    seq![100u8, 105u8, 102u8, 102u8, 32u8]
}

/// The bytes of `diff `, as an array.
pub fn diff_sp_bytes() -> (r: [u8; 5])
    ensures
        r@ == diff_sp(),
{
    let r: [u8; 5] = [100u8, 105u8, 102u8, 102u8, 32u8];
    assert(r@ =~= diff_sp());
    r
}

/// The bytes of `dissimilarity `.
pub open spec fn dissimilarity_sp() -> Seq<u8> {
    seq![100u8, 105u8, 115u8, 115u8, 105u8, 109u8, 105u8, 108u8, 97u8, 114u8, 105u8, 116u8, 121u8, 32u8]
}

/// The bytes of `dissimilarity `, as an array.
pub fn dissimilarity_sp_bytes() -> (r: [u8; 14])
    ensures
        r@ == dissimilarity_sp(),
{
    let r: [u8; 14] = [100u8, 105u8, 115u8, 115u8, 105u8, 109u8, 105u8, 108u8, 97u8, 114u8, 105u8, 116u8, 121u8, 32u8];
    assert(r@ =~= dissimilarity_sp());
    r
}

/// The bytes of `deleted `.
pub open spec fn deleted_sp() -> Seq<u8> {
    seq![100u8, 101u8, 108u8, 101u8, 116u8, 101u8, 100u8, 32u8]
}

/// The bytes of `deleted `, as an array.
pub fn deleted_sp_bytes() -> (r: [u8; 8])
    ensures
        r@ == deleted_sp(),
{
    let r: [u8; 8] = [100u8, 101u8, 108u8, 101u8, 116u8, 101u8, 100u8, 32u8];
    assert(r@ =~= deleted_sp());
    r
}

/// The bytes of `file `.
pub open spec fn file_sp() -> Seq<u8> {
    seq![102u8, 105u8, 108u8, 101u8, 32u8]
}

/// The bytes of `file `, as an array.
pub fn file_sp_bytes() -> (r: [u8; 5])
    ensures
        r@ == file_sp(),
{
    let r: [u8; 5] = [102u8, 105u8, 108u8, 101u8, 32u8];
    assert(r@ =~= file_sp());
    r
}

/// The bytes of `GIT binary patch`.
pub open spec fn git_binary_patch() -> Seq<u8> {
    seq![71u8, 73u8, 84u8, 32u8, 98u8, 105u8, 110u8, 97u8, 114u8, 121u8, 32u8, 112u8, 97u8, 116u8, 99u8, 104u8]
}

/// The bytes of `GIT binary patch`, as an array.
pub fn git_binary_patch_bytes() -> (r: [u8; 16])
    ensures
        r@ == git_binary_patch(),
{
    let r: [u8; 16] = [71u8, 73u8, 84u8, 32u8, 98u8, 105u8, 110u8, 97u8, 114u8, 121u8, 32u8, 112u8, 97u8, 116u8, 99u8, 104u8];
    assert(r@ =~= git_binary_patch());
    r
}

/// The bytes of `index `.
pub open spec fn index_sp() -> Seq<u8> {
    seq![105u8, 110u8, 100u8, 101u8, 120u8, 32u8]
}

/// The bytes of `index `, as an array.
pub fn index_sp_bytes() -> (r: [u8; 6])
    ensures
        r@ == index_sp(),
{
    let r: [u8; 6] = [105u8, 110u8, 100u8, 101u8, 120u8, 32u8];
    assert(r@ =~= index_sp());
    r
}

/// The bytes of `..`.
pub open spec fn dot2() -> Seq<u8> {
    seq![46u8, 46u8]
}

/// The bytes of `..`, as an array.
pub fn dot2_bytes() -> (r: [u8; 2])
    ensures
        r@ == dot2(),
{
    let r: [u8; 2] = [46u8, 46u8];
    assert(r@ =~= dot2());
    r
}

/// The bytes of `label `.
pub open spec fn label_sp() -> Seq<u8> {
    seq![108u8, 97u8, 98u8, 101u8, 108u8, 32u8]
}

/// The bytes of `label `, as an array.
pub fn label_sp_bytes() -> (r: [u8; 6])
    ensures
        r@ == label_sp(),
{
    let r: [u8; 6] = [108u8, 97u8, 98u8, 101u8, 108u8, 32u8];
    assert(r@ =~= label_sp());
    r
}

/// The bytes of `new `.
pub open spec fn new_sp() -> Seq<u8> {
    seq![110u8, 101u8, 119u8, 32u8]
}

/// The bytes of `new `, as an array.
pub fn new_sp_bytes() -> (r: [u8; 4])
    ensures
        r@ == new_sp(),
{
    let r: [u8; 4] = [110u8, 101u8, 119u8, 32u8];
    assert(r@ =~= new_sp());
    r
}

/// The bytes of `old `.
pub open spec fn old_sp() -> Seq<u8> {
    seq![111u8, 108u8, 100u8, 32u8]
}

/// The bytes of `old `, as an array.
pub fn old_sp_bytes() -> (r: [u8; 4])
    ensures
        r@ == old_sp(),
{
    let r: [u8; 4] = [111u8, 108u8, 100u8, 32u8];
    assert(r@ =~= old_sp());
    r
}

/// The bytes of `similarity index `.
pub open spec fn similarity_index_sp() -> Seq<u8> {
    seq![115u8, 105u8, 109u8, 105u8, 108u8, 97u8, 114u8, 105u8, 116u8, 121u8, 32u8, 105u8, 110u8, 100u8, 101u8, 120u8, 32u8]
}

/// The bytes of `similarity index `, as an array.
pub fn similarity_index_sp_bytes() -> (r: [u8; 17])
    ensures
        r@ == similarity_index_sp(),
{
    let r: [u8; 17] = [115u8, 105u8, 109u8, 105u8, 108u8, 97u8, 114u8, 105u8, 116u8, 121u8, 32u8, 105u8, 110u8, 100u8, 101u8, 120u8, 32u8];
    assert(r@ =~= similarity_index_sp());
    r
}

/// The bytes of `Binary files `.
pub open spec fn binary_files_sp() -> Seq<u8> {
    seq![66u8, 105u8, 110u8, 97u8, 114u8, 121u8, 32u8, 102u8, 105u8, 108u8, 101u8, 115u8, 32u8]
}

/// The bytes of `Binary files `, as an array.
pub fn binary_files_sp_bytes() -> (r: [u8; 13])
    ensures
        r@ == binary_files_sp(),
{
    let r: [u8; 13] = [66u8, 105u8, 110u8, 97u8, 114u8, 121u8, 32u8, 102u8, 105u8, 108u8, 101u8, 115u8, 32u8];
    assert(r@ =~= binary_files_sp());
    r
}

/// The bytes of ` differ`.
pub open spec fn sp_differ() -> Seq<u8> {
    seq![32u8, 100u8, 105u8, 102u8, 102u8, 101u8, 114u8]
}

/// The bytes of ` differ`, as an array.
pub fn sp_differ_bytes() -> (r: [u8; 7])
    ensures
        r@ == sp_differ(),
{
    let r: [u8; 7] = [32u8, 100u8, 105u8, 102u8, 102u8, 101u8, 114u8];
    assert(r@ =~= sp_differ());
    r
}

/// The bytes of `\ No newline at end of file`.
pub open spec fn no_newline() -> Seq<u8> {
    seq![92u8, 32u8, 78u8, 111u8, 32u8, 110u8, 101u8, 119u8, 108u8, 105u8, 110u8, 101u8, 32u8, 97u8, 116u8, 32u8, 101u8, 110u8, 100u8, 32u8, 111u8, 102u8, 32u8, 102u8, 105u8, 108u8, 101u8]
}

/// The bytes of `\ No newline at end of file`, as an array.
pub fn no_newline_bytes() -> (r: [u8; 27])
    ensures
        r@ == no_newline(),
{
    let r: [u8; 27] = [92u8, 32u8, 78u8, 111u8, 32u8, 110u8, 101u8, 119u8, 108u8, 105u8, 110u8, 101u8, 32u8, 97u8, 116u8, 32u8, 101u8, 110u8, 100u8, 32u8, 111u8, 102u8, 32u8, 102u8, 105u8, 108u8, 101u8];
    assert(r@ =~= no_newline());
    r
}

/// The bytes of `dissimilarity index `.
pub open spec fn dissimilarity_index_sp() -> Seq<u8> {
    seq![100u8, 105u8, 115u8, 115u8, 105u8, 109u8, 105u8, 108u8, 97u8, 114u8, 105u8, 116u8, 121u8, 32u8, 105u8, 110u8, 100u8, 101u8, 120u8, 32u8]
}

/// The bytes of `dissimilarity index `, as an array.
pub fn dissimilarity_index_sp_bytes() -> (r: [u8; 20])
    ensures
        r@ == dissimilarity_index_sp(),
{
    let r: [u8; 20] = [100u8, 105u8, 115u8, 115u8, 105u8, 109u8, 105u8, 108u8, 97u8, 114u8, 105u8, 116u8, 121u8, 32u8, 105u8, 110u8, 100u8, 101u8, 120u8, 32u8];
    assert(r@ =~= dissimilarity_index_sp());
    r
}

/// The bytes of `rename from `.
pub open spec fn rename_from_sp() -> Seq<u8> {
    seq![114u8, 101u8, 110u8, 97u8, 109u8, 101u8, 32u8, 102u8, 114u8, 111u8, 109u8, 32u8]
}

/// The bytes of `rename from `, as an array.
pub fn rename_from_sp_bytes() -> (r: [u8; 12])
    ensures
        r@ == rename_from_sp(),
{
    let r: [u8; 12] = [114u8, 101u8, 110u8, 97u8, 109u8, 101u8, 32u8, 102u8, 114u8, 111u8, 109u8, 32u8];
    assert(r@ =~= rename_from_sp());
    r
}

/// The bytes of `rename to `.
pub open spec fn rename_to_sp() -> Seq<u8> {
    seq![114u8, 101u8, 110u8, 97u8, 109u8, 101u8, 32u8, 116u8, 111u8, 32u8]
}

/// The bytes of `rename to `, as an array.
pub fn rename_to_sp_bytes() -> (r: [u8; 10])
    ensures
        r@ == rename_to_sp(),
{
    let r: [u8; 10] = [114u8, 101u8, 110u8, 97u8, 109u8, 101u8, 32u8, 116u8, 111u8, 32u8];
    assert(r@ =~= rename_to_sp());
    r
}

/// The bytes of `copy from `.
pub open spec fn copy_from_sp() -> Seq<u8> {
    seq![99u8, 111u8, 112u8, 121u8, 32u8, 102u8, 114u8, 111u8, 109u8, 32u8]
}

/// The bytes of `copy from `, as an array.
pub fn copy_from_sp_bytes() -> (r: [u8; 10])
    ensures
        r@ == copy_from_sp(),
{
    let r: [u8; 10] = [99u8, 111u8, 112u8, 121u8, 32u8, 102u8, 114u8, 111u8, 109u8, 32u8];
    assert(r@ =~= copy_from_sp());
    r
}

/// The bytes of `copy to `.
pub open spec fn copy_to_sp() -> Seq<u8> {
    seq![99u8, 111u8, 112u8, 121u8, 32u8, 116u8, 111u8, 32u8]
}

/// The bytes of `copy to `, as an array.
pub fn copy_to_sp_bytes() -> (r: [u8; 8])
    ensures
        r@ == copy_to_sp(),
{
    let r: [u8; 8] = [99u8, 111u8, 112u8, 121u8, 32u8, 116u8, 111u8, 32u8];
    assert(r@ =~= copy_to_sp());
    r
}

/// The bytes of `file mode `.
pub open spec fn file_mode_sp() -> Seq<u8> {
    seq![102u8, 105u8, 108u8, 101u8, 32u8, 109u8, 111u8, 100u8, 101u8, 32u8]
}

/// The bytes of `file mode `, as an array.
pub fn file_mode_sp_bytes() -> (r: [u8; 10])
    ensures
        r@ == file_mode_sp(),
{
    let r: [u8; 10] = [102u8, 105u8, 108u8, 101u8, 32u8, 109u8, 111u8, 100u8, 101u8, 32u8];
    assert(r@ =~= file_mode_sp());
    r
}

/// The bytes of `mode `.
pub open spec fn mode_sp() -> Seq<u8> {
    seq![109u8, 111u8, 100u8, 101u8, 32u8]
}

/// The bytes of `mode `, as an array.
pub fn mode_sp_bytes() -> (r: [u8; 5])
    ensures
        r@ == mode_sp(),
{
    let r: [u8; 5] = [109u8, 111u8, 100u8, 101u8, 32u8];
    assert(r@ =~= mode_sp());
    r
}

/// The bytes of `%`.
pub open spec fn percent() -> Seq<u8> {
    seq![37u8]
}

/// The bytes of `%`, as an array.
pub fn percent_bytes() -> (r: [u8; 1])
    ensures
        r@ == percent(),
{
    let r: [u8; 1] = [37u8];
    assert(r@ =~= percent());
    r
}

/// The bytes of `a/`.
pub open spec fn a_slash() -> Seq<u8> {
    seq![97u8, 47u8]
}

/// The bytes of `a/`, as an array.
pub fn a_slash_bytes() -> (r: [u8; 2])
    ensures
        r@ == a_slash(),
{
    let r: [u8; 2] = [97u8, 47u8];
    assert(r@ =~= a_slash());
    r
}

/// The bytes of `b/`.
pub open spec fn b_slash() -> Seq<u8> {
    seq![98u8, 47u8]
}

/// The bytes of `b/`, as an array.
pub fn b_slash_bytes() -> (r: [u8; 2])
    ensures
        r@ == b_slash(),
{
    let r: [u8; 2] = [98u8, 47u8];
    assert(r@ =~= b_slash());
    r
}

/// The bytes of `/dev/null`.
pub open spec fn dev_null() -> Seq<u8> {
    seq![47u8, 100u8, 101u8, 118u8, 47u8, 110u8, 117u8, 108u8, 108u8]
}

/// The bytes of `/dev/null`, as an array.
pub fn dev_null_bytes() -> (r: [u8; 9])
    ensures
        r@ == dev_null(),
{
    let r: [u8; 9] = [47u8, 100u8, 101u8, 118u8, 47u8, 110u8, 117u8, 108u8, 108u8];
    assert(r@ =~= dev_null());
    r
}

/// The bytes of `and `.
pub open spec fn and_sp() -> Seq<u8> {
    seq![97u8, 110u8, 100u8, 32u8]
}

/// The bytes of `and `, as an array.
pub fn and_sp_bytes() -> (r: [u8; 4])
    ensures
        r@ == and_sp(),
{
    let r: [u8; 4] = [97u8, 110u8, 100u8, 32u8];
    assert(r@ =~= and_sp());
    r
}

/// The bytes of `blob `.
pub open spec fn blob_sp() -> Seq<u8> {
    seq![98u8, 108u8, 111u8, 98u8, 32u8]
}

/// The bytes of `blob `, as an array.
pub fn blob_sp_bytes() -> (r: [u8; 5])
    ensures
        r@ == blob_sp(),
{
    let r: [u8; 5] = [98u8, 108u8, 111u8, 98u8, 32u8];
    assert(r@ =~= blob_sp());
    r
}

} // verus!
