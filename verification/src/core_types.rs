//! The core argument types of YANG: their names, how each is checked, and
//! the regular expressions they are checked against.

use vstd::prelude::*;
use crate::atoms::{Atom, AtomTable, spec_intern};
use crate::grammar::{
    GrammarTables, ArgTypeV, SyntaxV, YangArgType, ArgSyntax, Validator, F_ARG_TYPE_SYNTAX_REGEXP,
    F_ARG_TYPE_SYNTAX_CB, spec_install_types, yang_install_arg_types, types_view,
};
use crate::regex::{compiler_ok, compiles};
use crate::text::{str_bytes, push_str, push_bytes, copy_bytes};
use vstd::string::StringSliceAdditionalSpecFns;

verus! {

/// The regular expression for `identifier` (RFC 7950).
#[verifier::opaque]
pub open spec fn pat_identifier() -> Seq<u8> {
    "[_A-Za-z][._\\-A-Za-z0-9]*".spec_bytes()
}

fn build_identifier() -> (r: Vec<u8>)
    ensures
        r@ == pat_identifier(),
{
    reveal(pat_identifier);
    str_bytes("[_A-Za-z][._\\-A-Za-z0-9]*")
}

/// The regular expression for `node-id` (RFC 7950).
#[verifier::opaque]
pub open spec fn pat_node_id() -> Seq<u8> {
    "((".spec_bytes() + pat_identifier() + "):)?(".spec_bytes() + pat_identifier() + ")".spec_bytes()
}

fn build_node_id() -> (r: Vec<u8>)
    ensures
        r@ == pat_node_id(),
{
    reveal(pat_node_id);
    let mut v = str_bytes("((");
    let t = build_identifier();
    push_bytes(&mut v, t.as_slice());
    push_str(&mut v, "):)?(");
    let t = build_identifier();
    push_bytes(&mut v, t.as_slice());
    push_str(&mut v, ")");
    v
}

/// The regular expression for `rel-path-keyexpr` (RFC 7950).
#[verifier::opaque]
pub open spec fn pat_rel_path_keyexpr() -> Seq<u8> {
    "(\\.\\./)+(".spec_bytes() + pat_node_id() + "/)*".spec_bytes() + pat_node_id()
}

fn build_rel_path_keyexpr() -> (r: Vec<u8>)
    ensures
        r@ == pat_rel_path_keyexpr(),
{
    reveal(pat_rel_path_keyexpr);
    let mut v = str_bytes("(\\.\\./)+(");
    let t = build_node_id();
    push_bytes(&mut v, t.as_slice());
    push_str(&mut v, "/)*");
    let t = build_node_id();
    push_bytes(&mut v, t.as_slice());
    v
}

/// The regular expression for `path-key-expr` (RFC 7950).
#[verifier::opaque]
pub open spec fn pat_path_key_expr() -> Seq<u8> {
    "(current\\s*\\(\\s*\\)/".spec_bytes() + pat_rel_path_keyexpr() + ")".spec_bytes()
}

fn build_path_key_expr() -> (r: Vec<u8>)
    ensures
        r@ == pat_path_key_expr(),
{
    reveal(pat_path_key_expr);
    let mut v = str_bytes("(current\\s*\\(\\s*\\)/");
    let t = build_rel_path_keyexpr();
    push_bytes(&mut v, t.as_slice());
    push_str(&mut v, ")");
    v
}

/// The regular expression for `path-equality-expr` (RFC 7950).
#[verifier::opaque]
pub open spec fn pat_path_equality_expr() -> Seq<u8> {
    pat_node_id() + "\\s*=\\s*".spec_bytes() + pat_path_key_expr()
}

fn build_path_equality_expr() -> (r: Vec<u8>)
    ensures
        r@ == pat_path_equality_expr(),
{
    reveal(pat_path_equality_expr);
    let mut v = build_node_id();
    push_str(&mut v, "\\s*=\\s*");
    let t = build_path_key_expr();
    push_bytes(&mut v, t.as_slice());
    v
}

/// The regular expression for `path-predicate` (RFC 7950).
#[verifier::opaque]
pub open spec fn pat_path_predicate() -> Seq<u8> {
    "\\s*\\[\\s*".spec_bytes() + pat_path_equality_expr() + "\\s*\\]\\s*".spec_bytes()
}

fn build_path_predicate() -> (r: Vec<u8>)
    ensures
        r@ == pat_path_predicate(),
{
    reveal(pat_path_predicate);
    let mut v = str_bytes("\\s*\\[\\s*");
    let t = build_path_equality_expr();
    push_bytes(&mut v, t.as_slice());
    push_str(&mut v, "\\s*\\]\\s*");
    v
}

/// The regular expression for `absolute-path-arg` (RFC 7950).
#[verifier::opaque]
pub open spec fn pat_absolute_path_arg() -> Seq<u8> {
    "(/".spec_bytes() + pat_node_id() + "(".spec_bytes() + pat_path_predicate() + ")*)+".spec_bytes()
}

fn build_absolute_path_arg() -> (r: Vec<u8>)
    ensures
        r@ == pat_absolute_path_arg(),
{
    reveal(pat_absolute_path_arg);
    let mut v = str_bytes("(/");
    let t = build_node_id();
    push_bytes(&mut v, t.as_slice());
    push_str(&mut v, "(");
    let t = build_path_predicate();
    push_bytes(&mut v, t.as_slice());
    push_str(&mut v, ")*)+");
    v
}

/// The regular expression for `descendant-path-arg` (RFC 7950).
#[verifier::opaque]
pub open spec fn pat_descendant_path_arg() -> Seq<u8> {
    pat_node_id() + "(".spec_bytes() + pat_path_predicate() + ")*(".spec_bytes() + pat_absolute_path_arg() + ")?".spec_bytes()
}

fn build_descendant_path_arg() -> (r: Vec<u8>)
    ensures
        r@ == pat_descendant_path_arg(),
{
    reveal(pat_descendant_path_arg);
    let mut v = build_node_id();
    push_str(&mut v, "(");
    let t = build_path_predicate();
    push_bytes(&mut v, t.as_slice());
    push_str(&mut v, ")*(");
    let t = build_absolute_path_arg();
    push_bytes(&mut v, t.as_slice());
    push_str(&mut v, ")?");
    v
}

/// The regular expression for `relative-path-arg` (RFC 7950).
#[verifier::opaque]
pub open spec fn pat_relative_path_arg() -> Seq<u8> {
    "(\\.\\./)*".spec_bytes() + pat_descendant_path_arg()
}

fn build_relative_path_arg() -> (r: Vec<u8>)
    ensures
        r@ == pat_relative_path_arg(),
{
    reveal(pat_relative_path_arg);
    let mut v = str_bytes("(\\.\\./)*");
    let t = build_descendant_path_arg();
    push_bytes(&mut v, t.as_slice());
    v
}

/// The regular expression for `deref-path-arg` (RFC 7950).
#[verifier::opaque]
pub open spec fn pat_deref_path_arg() -> Seq<u8> {
    "deref\\s*\\(\\s*(".spec_bytes() + pat_relative_path_arg() + ")\\s*\\)/\\.\\./".spec_bytes() + pat_relative_path_arg()
}

fn build_deref_path_arg() -> (r: Vec<u8>)
    ensures
        r@ == pat_deref_path_arg(),
{
    reveal(pat_deref_path_arg);
    let mut v = str_bytes("deref\\s*\\(\\s*(");
    let t = build_relative_path_arg();
    push_bytes(&mut v, t.as_slice());
    push_str(&mut v, ")\\s*\\)/\\.\\./");
    let t = build_relative_path_arg();
    push_bytes(&mut v, t.as_slice());
    v
}

/// The regular expression for `path-arg` (RFC 7950).
#[verifier::opaque]
pub open spec fn pat_path_arg() -> Seq<u8> {
    "(".spec_bytes() + pat_absolute_path_arg() + "|".spec_bytes() + pat_relative_path_arg() + "|".spec_bytes() + pat_deref_path_arg() + ")".spec_bytes()
}

fn build_path_arg() -> (r: Vec<u8>)
    ensures
        r@ == pat_path_arg(),
{
    reveal(pat_path_arg);
    let mut v = str_bytes("(");
    let t = build_absolute_path_arg();
    push_bytes(&mut v, t.as_slice());
    push_str(&mut v, "|");
    let t = build_relative_path_arg();
    push_bytes(&mut v, t.as_slice());
    push_str(&mut v, "|");
    let t = build_deref_path_arg();
    push_bytes(&mut v, t.as_slice());
    push_str(&mut v, ")");
    v
}

/// The regular expression for `strict-path-arg` (RFC 7950).
#[verifier::opaque]
pub open spec fn pat_strict_path_arg() -> Seq<u8> {
    "(".spec_bytes() + pat_absolute_path_arg() + "|".spec_bytes() + pat_relative_path_arg() + ")".spec_bytes()
}

fn build_strict_path_arg() -> (r: Vec<u8>)
    ensures
        r@ == pat_strict_path_arg(),
{
    reveal(pat_strict_path_arg);
    let mut v = str_bytes("(");
    let t = build_absolute_path_arg();
    push_bytes(&mut v, t.as_slice());
    push_str(&mut v, "|");
    let t = build_relative_path_arg();
    push_bytes(&mut v, t.as_slice());
    push_str(&mut v, ")");
    v
}

/// The regular expression for `scheme` (RFC 3986).
#[verifier::opaque]
pub open spec fn pat_scheme() -> Seq<u8> {
    "[A-Za-z][-+.A-Za-z0-9]*".spec_bytes()
}

fn build_scheme() -> (r: Vec<u8>)
    ensures
        r@ == pat_scheme(),
{
    reveal(pat_scheme);
    str_bytes("[A-Za-z][-+.A-Za-z0-9]*")
}

/// The regular expression for `unreserved` (RFC 3986).
#[verifier::opaque]
pub open spec fn pat_unreserved() -> Seq<u8> {
    "[-._~A-Za-z0-9]".spec_bytes()
}

fn build_unreserved() -> (r: Vec<u8>)
    ensures
        r@ == pat_unreserved(),
{
    reveal(pat_unreserved);
    str_bytes("[-._~A-Za-z0-9]")
}

/// The regular expression for `pct-encoded` (RFC 3986).
#[verifier::opaque]
pub open spec fn pat_pct_encoded() -> Seq<u8> {
    "%[0-9A-F]{2}".spec_bytes()
}

fn build_pct_encoded() -> (r: Vec<u8>)
    ensures
        r@ == pat_pct_encoded(),
{
    reveal(pat_pct_encoded);
    str_bytes("%[0-9A-F]{2}")
}

/// The regular expression for `sub-delims` (RFC 3986).
#[verifier::opaque]
pub open spec fn pat_sub_delims() -> Seq<u8> {
    "[!$&'()*+,;=]".spec_bytes()
}

fn build_sub_delims() -> (r: Vec<u8>)
    ensures
        r@ == pat_sub_delims(),
{
    reveal(pat_sub_delims);
    str_bytes("[!$&'()*+,;=]")
}

/// The regular expression for `dec-octet` (RFC 3986).
#[verifier::opaque]
pub open spec fn pat_dec_octet() -> Seq<u8> {
    "([0-9]|[1-9][0-9]|1[0-9]{2}|2[0-4][0-9]|25[0-5])".spec_bytes()
}

fn build_dec_octet() -> (r: Vec<u8>)
    ensures
        r@ == pat_dec_octet(),
{
    reveal(pat_dec_octet);
    str_bytes("([0-9]|[1-9][0-9]|1[0-9]{2}|2[0-4][0-9]|25[0-5])")
}

/// The regular expression for `h16` (RFC 3986).
#[verifier::opaque]
pub open spec fn pat_h16() -> Seq<u8> {
    "[0-9A-F]{1,4}".spec_bytes()
}

fn build_h16() -> (r: Vec<u8>)
    ensures
        r@ == pat_h16(),
{
    reveal(pat_h16);
    str_bytes("[0-9A-F]{1,4}")
}

/// The regular expression for `port` (RFC 3986).
#[verifier::opaque]
pub open spec fn pat_port() -> Seq<u8> {
    "[0-9]*".spec_bytes()
}

fn build_port() -> (r: Vec<u8>)
    ensures
        r@ == pat_port(),
{
    reveal(pat_port);
    str_bytes("[0-9]*")
}

/// The regular expression for `pchar` (RFC 3986).
#[verifier::opaque]
pub open spec fn pat_pchar() -> Seq<u8> {
    "(".spec_bytes() + pat_unreserved() + "|".spec_bytes() + pat_pct_encoded() + "|".spec_bytes() + pat_sub_delims() + "|[:@])".spec_bytes()
}

fn build_pchar() -> (r: Vec<u8>)
    ensures
        r@ == pat_pchar(),
{
    reveal(pat_pchar);
    let mut v = str_bytes("(");
    let t = build_unreserved();
    push_bytes(&mut v, t.as_slice());
    push_str(&mut v, "|");
    let t = build_pct_encoded();
    push_bytes(&mut v, t.as_slice());
    push_str(&mut v, "|");
    let t = build_sub_delims();
    push_bytes(&mut v, t.as_slice());
    push_str(&mut v, "|[:@])");
    v
}

/// The regular expression for `segment` (RFC 3986).
#[verifier::opaque]
pub open spec fn pat_segment() -> Seq<u8> {
    pat_pchar() + "*".spec_bytes()
}

fn build_segment() -> (r: Vec<u8>)
    ensures
        r@ == pat_segment(),
{
    reveal(pat_segment);
    let mut v = build_pchar();
    push_str(&mut v, "*");
    v
}

/// The regular expression for `segment-nz` (RFC 3986).
#[verifier::opaque]
pub open spec fn pat_segment_nz() -> Seq<u8> {
    pat_pchar() + "+".spec_bytes()
}

fn build_segment_nz() -> (r: Vec<u8>)
    ensures
        r@ == pat_segment_nz(),
{
    reveal(pat_segment_nz);
    let mut v = build_pchar();
    push_str(&mut v, "+");
    v
}

/// The regular expression for `userinfo` (RFC 3986).
#[verifier::opaque]
pub open spec fn pat_userinfo() -> Seq<u8> {
    "(".spec_bytes() + pat_unreserved() + "|".spec_bytes() + pat_pct_encoded() + "|".spec_bytes() + pat_sub_delims() + "|:)*".spec_bytes()
}

fn build_userinfo() -> (r: Vec<u8>)
    ensures
        r@ == pat_userinfo(),
{
    reveal(pat_userinfo);
    let mut v = str_bytes("(");
    let t = build_unreserved();
    push_bytes(&mut v, t.as_slice());
    push_str(&mut v, "|");
    let t = build_pct_encoded();
    push_bytes(&mut v, t.as_slice());
    push_str(&mut v, "|");
    let t = build_sub_delims();
    push_bytes(&mut v, t.as_slice());
    push_str(&mut v, "|:)*");
    v
}

/// The regular expression for `IPv4address` (RFC 3986).
#[verifier::opaque]
pub open spec fn pat_ipv4address() -> Seq<u8> {
    "(".spec_bytes() + pat_dec_octet() + ".){3}".spec_bytes() + pat_dec_octet()
}

fn build_ipv4address() -> (r: Vec<u8>)
    ensures
        r@ == pat_ipv4address(),
{
    reveal(pat_ipv4address);
    let mut v = str_bytes("(");
    let t = build_dec_octet();
    push_bytes(&mut v, t.as_slice());
    push_str(&mut v, ".){3}");
    let t = build_dec_octet();
    push_bytes(&mut v, t.as_slice());
    v
}

/// The regular expression for `ls32` (RFC 3986).
#[verifier::opaque]
pub open spec fn pat_ls32() -> Seq<u8> {
    "(".spec_bytes() + pat_h16() + ":".spec_bytes() + pat_h16() + "|".spec_bytes() + pat_ipv4address() + ")".spec_bytes()
}

fn build_ls32() -> (r: Vec<u8>)
    ensures
        r@ == pat_ls32(),
{
    reveal(pat_ls32);
    let mut v = str_bytes("(");
    let t = build_h16();
    push_bytes(&mut v, t.as_slice());
    push_str(&mut v, ":");
    let t = build_h16();
    push_bytes(&mut v, t.as_slice());
    push_str(&mut v, "|");
    let t = build_ipv4address();
    push_bytes(&mut v, t.as_slice());
    push_str(&mut v, ")");
    v
}

/// The regular expression for `IPv6address` (RFC 3986).
#[verifier::opaque]
pub open spec fn pat_ipv6address() -> Seq<u8> {
    "((".spec_bytes() + pat_h16() + ":){6}".spec_bytes() + pat_ls32() + "|::(".spec_bytes() + pat_h16() + ":){5}".spec_bytes() + pat_ls32() + "|(".spec_bytes() + pat_h16() + ")?::(".spec_bytes() + pat_h16() + ":){4}".spec_bytes() + pat_ls32() + "|((".spec_bytes() + pat_h16() + ":)?".spec_bytes() + pat_h16() + ")?::(".spec_bytes() + pat_h16() + ":){3}".spec_bytes() + pat_ls32() + "|((".spec_bytes() + pat_h16() + ":){0,2}".spec_bytes() + pat_h16() + ")?::(".spec_bytes() + pat_h16() + ":){2}".spec_bytes() + pat_ls32() + "|((".spec_bytes() + pat_h16() + ":){0,3}".spec_bytes() + pat_h16() + ")?::".spec_bytes() + pat_h16() + ":".spec_bytes() + pat_ls32() + "|((".spec_bytes() + pat_h16() + ":){0,4}".spec_bytes() + pat_h16() + ")?::".spec_bytes() + pat_ls32() + "|((".spec_bytes() + pat_h16() + ":){0,5}".spec_bytes() + pat_h16() + ")?::".spec_bytes() + pat_ls32() + "|((".spec_bytes() + pat_h16() + ":){0,6}".spec_bytes() + pat_h16() + ")?::)".spec_bytes()
}

fn build_ipv6address() -> (r: Vec<u8>)
    ensures
        r@ == pat_ipv6address(),
{
    reveal(pat_ipv6address);
    let mut v = str_bytes("((");
    let t = build_h16();
    push_bytes(&mut v, t.as_slice());
    push_str(&mut v, ":){6}");
    let t = build_ls32();
    push_bytes(&mut v, t.as_slice());
    push_str(&mut v, "|::(");
    let t = build_h16();
    push_bytes(&mut v, t.as_slice());
    push_str(&mut v, ":){5}");
    let t = build_ls32();
    push_bytes(&mut v, t.as_slice());
    push_str(&mut v, "|(");
    let t = build_h16();
    push_bytes(&mut v, t.as_slice());
    push_str(&mut v, ")?::(");
    let t = build_h16();
    push_bytes(&mut v, t.as_slice());
    push_str(&mut v, ":){4}");
    let t = build_ls32();
    push_bytes(&mut v, t.as_slice());
    push_str(&mut v, "|((");
    let t = build_h16();
    push_bytes(&mut v, t.as_slice());
    push_str(&mut v, ":)?");
    let t = build_h16();
    push_bytes(&mut v, t.as_slice());
    push_str(&mut v, ")?::(");
    let t = build_h16();
    push_bytes(&mut v, t.as_slice());
    push_str(&mut v, ":){3}");
    let t = build_ls32();
    push_bytes(&mut v, t.as_slice());
    push_str(&mut v, "|((");
    let t = build_h16();
    push_bytes(&mut v, t.as_slice());
    push_str(&mut v, ":){0,2}");
    let t = build_h16();
    push_bytes(&mut v, t.as_slice());
    push_str(&mut v, ")?::(");
    let t = build_h16();
    push_bytes(&mut v, t.as_slice());
    push_str(&mut v, ":){2}");
    let t = build_ls32();
    push_bytes(&mut v, t.as_slice());
    push_str(&mut v, "|((");
    let t = build_h16();
    push_bytes(&mut v, t.as_slice());
    push_str(&mut v, ":){0,3}");
    let t = build_h16();
    push_bytes(&mut v, t.as_slice());
    push_str(&mut v, ")?::");
    let t = build_h16();
    push_bytes(&mut v, t.as_slice());
    push_str(&mut v, ":");
    let t = build_ls32();
    push_bytes(&mut v, t.as_slice());
    push_str(&mut v, "|((");
    let t = build_h16();
    push_bytes(&mut v, t.as_slice());
    push_str(&mut v, ":){0,4}");
    let t = build_h16();
    push_bytes(&mut v, t.as_slice());
    push_str(&mut v, ")?::");
    let t = build_ls32();
    push_bytes(&mut v, t.as_slice());
    push_str(&mut v, "|((");
    let t = build_h16();
    push_bytes(&mut v, t.as_slice());
    push_str(&mut v, ":){0,5}");
    let t = build_h16();
    push_bytes(&mut v, t.as_slice());
    push_str(&mut v, ")?::");
    let t = build_ls32();
    push_bytes(&mut v, t.as_slice());
    push_str(&mut v, "|((");
    let t = build_h16();
    push_bytes(&mut v, t.as_slice());
    push_str(&mut v, ":){0,6}");
    let t = build_h16();
    push_bytes(&mut v, t.as_slice());
    push_str(&mut v, ")?::)");
    v
}

/// The regular expression for `IPvFuture` (RFC 3986).
#[verifier::opaque]
pub open spec fn pat_ipvfuture() -> Seq<u8> {
    "v[0-9A-F]+\\.(".spec_bytes() + pat_unreserved() + "|".spec_bytes() + pat_sub_delims() + "|:)+".spec_bytes()
}

fn build_ipvfuture() -> (r: Vec<u8>)
    ensures
        r@ == pat_ipvfuture(),
{
    reveal(pat_ipvfuture);
    let mut v = str_bytes("v[0-9A-F]+\\.(");
    let t = build_unreserved();
    push_bytes(&mut v, t.as_slice());
    push_str(&mut v, "|");
    let t = build_sub_delims();
    push_bytes(&mut v, t.as_slice());
    push_str(&mut v, "|:)+");
    v
}

/// The regular expression for `IP-literal` (RFC 3986).
#[verifier::opaque]
pub open spec fn pat_ipliteral() -> Seq<u8> {
    "\\[(".spec_bytes() + pat_ipv6address() + "|".spec_bytes() + pat_ipvfuture() + ")\\]".spec_bytes()
}

fn build_ipliteral() -> (r: Vec<u8>)
    ensures
        r@ == pat_ipliteral(),
{
    reveal(pat_ipliteral);
    let mut v = str_bytes("\\[(");
    let t = build_ipv6address();
    push_bytes(&mut v, t.as_slice());
    push_str(&mut v, "|");
    let t = build_ipvfuture();
    push_bytes(&mut v, t.as_slice());
    push_str(&mut v, ")\\]");
    v
}

/// The regular expression for `reg-name` (RFC 3986).
#[verifier::opaque]
pub open spec fn pat_reg_name() -> Seq<u8> {
    "(".spec_bytes() + pat_unreserved() + "|".spec_bytes() + pat_pct_encoded() + "|".spec_bytes() + pat_sub_delims() + ")*".spec_bytes()
}

fn build_reg_name() -> (r: Vec<u8>)
    ensures
        r@ == pat_reg_name(),
{
    reveal(pat_reg_name);
    let mut v = str_bytes("(");
    let t = build_unreserved();
    push_bytes(&mut v, t.as_slice());
    push_str(&mut v, "|");
    let t = build_pct_encoded();
    push_bytes(&mut v, t.as_slice());
    push_str(&mut v, "|");
    let t = build_sub_delims();
    push_bytes(&mut v, t.as_slice());
    push_str(&mut v, ")*");
    v
}

/// The regular expression for `host` (RFC 3986).
#[verifier::opaque]
pub open spec fn pat_host() -> Seq<u8> {
    "(".spec_bytes() + pat_ipliteral() + "|".spec_bytes() + pat_ipv4address() + "|".spec_bytes() + pat_reg_name() + ")".spec_bytes()
}

fn build_host() -> (r: Vec<u8>)
    ensures
        r@ == pat_host(),
{
    reveal(pat_host);
    let mut v = str_bytes("(");
    let t = build_ipliteral();
    push_bytes(&mut v, t.as_slice());
    push_str(&mut v, "|");
    let t = build_ipv4address();
    push_bytes(&mut v, t.as_slice());
    push_str(&mut v, "|");
    let t = build_reg_name();
    push_bytes(&mut v, t.as_slice());
    push_str(&mut v, ")");
    v
}

/// The regular expression for `authority` (RFC 3986).
#[verifier::opaque]
pub open spec fn pat_authority() -> Seq<u8> {
    "(".spec_bytes() + pat_userinfo() + "@)?".spec_bytes() + pat_host() + "(:".spec_bytes() + pat_port() + ")?".spec_bytes()
}

fn build_authority() -> (r: Vec<u8>)
    ensures
        r@ == pat_authority(),
{
    reveal(pat_authority);
    let mut v = str_bytes("(");
    let t = build_userinfo();
    push_bytes(&mut v, t.as_slice());
    push_str(&mut v, "@)?");
    let t = build_host();
    push_bytes(&mut v, t.as_slice());
    push_str(&mut v, "(:");
    let t = build_port();
    push_bytes(&mut v, t.as_slice());
    push_str(&mut v, ")?");
    v
}

/// The regular expression for `path-abempty` (RFC 3986).
#[verifier::opaque]
pub open spec fn pat_path_abempty() -> Seq<u8> {
    "(/".spec_bytes() + pat_segment() + ")*".spec_bytes()
}

fn build_path_abempty() -> (r: Vec<u8>)
    ensures
        r@ == pat_path_abempty(),
{
    reveal(pat_path_abempty);
    let mut v = str_bytes("(/");
    let t = build_segment();
    push_bytes(&mut v, t.as_slice());
    push_str(&mut v, ")*");
    v
}

/// The regular expression for `path-absolute` (RFC 3986).
#[verifier::opaque]
pub open spec fn pat_path_absolute() -> Seq<u8> {
    "/(".spec_bytes() + pat_segment_nz() + "(/".spec_bytes() + pat_segment() + ")*)?".spec_bytes()
}

fn build_path_absolute() -> (r: Vec<u8>)
    ensures
        r@ == pat_path_absolute(),
{
    reveal(pat_path_absolute);
    let mut v = str_bytes("/(");
    let t = build_segment_nz();
    push_bytes(&mut v, t.as_slice());
    push_str(&mut v, "(/");
    let t = build_segment();
    push_bytes(&mut v, t.as_slice());
    push_str(&mut v, ")*)?");
    v
}

/// The regular expression for `path-rootless` (RFC 3986).
#[verifier::opaque]
pub open spec fn pat_path_rootless() -> Seq<u8> {
    pat_segment_nz() + "(/".spec_bytes() + pat_segment() + ")*".spec_bytes()
}

fn build_path_rootless() -> (r: Vec<u8>)
    ensures
        r@ == pat_path_rootless(),
{
    reveal(pat_path_rootless);
    let mut v = build_segment_nz();
    push_str(&mut v, "(/");
    let t = build_segment();
    push_bytes(&mut v, t.as_slice());
    push_str(&mut v, ")*");
    v
}

/// The regular expression for `path-empty` (RFC 3986).
#[verifier::opaque]
pub open spec fn pat_path_empty() -> Seq<u8> {
    pat_pchar() + "{0}".spec_bytes()
}

fn build_path_empty() -> (r: Vec<u8>)
    ensures
        r@ == pat_path_empty(),
{
    reveal(pat_path_empty);
    let mut v = build_pchar();
    push_str(&mut v, "{0}");
    v
}

/// The regular expression for `hier-part` (RFC 3986).
#[verifier::opaque]
pub open spec fn pat_hier_part() -> Seq<u8> {
    "(//".spec_bytes() + pat_authority() + pat_path_abempty() + "|".spec_bytes() + pat_path_absolute() + "|".spec_bytes() + pat_path_rootless() + "|".spec_bytes() + pat_path_empty() + ")".spec_bytes()
}

fn build_hier_part() -> (r: Vec<u8>)
    ensures
        r@ == pat_hier_part(),
{
    reveal(pat_hier_part);
    let mut v = str_bytes("(//");
    let t = build_authority();
    push_bytes(&mut v, t.as_slice());
    let t = build_path_abempty();
    push_bytes(&mut v, t.as_slice());
    push_str(&mut v, "|");
    let t = build_path_absolute();
    push_bytes(&mut v, t.as_slice());
    push_str(&mut v, "|");
    let t = build_path_rootless();
    push_bytes(&mut v, t.as_slice());
    push_str(&mut v, "|");
    let t = build_path_empty();
    push_bytes(&mut v, t.as_slice());
    push_str(&mut v, ")");
    v
}

/// The regular expression for `query` (RFC 3986).
#[verifier::opaque]
pub open spec fn pat_query() -> Seq<u8> {
    "(".spec_bytes() + pat_pchar() + "|[/?])*".spec_bytes()
}

fn build_query() -> (r: Vec<u8>)
    ensures
        r@ == pat_query(),
{
    reveal(pat_query);
    let mut v = str_bytes("(");
    let t = build_pchar();
    push_bytes(&mut v, t.as_slice());
    push_str(&mut v, "|[/?])*");
    v
}

/// The regular expression for `URI` (RFC 3986).
#[verifier::opaque]
pub open spec fn pat_uri() -> Seq<u8> {
    pat_scheme() + ":".spec_bytes() + pat_hier_part() + "(\\?".spec_bytes() + pat_query() + ")?(#".spec_bytes() + pat_query() + ")?".spec_bytes()
}

fn build_uri() -> (r: Vec<u8>)
    ensures
        r@ == pat_uri(),
{
    reveal(pat_uri);
    let mut v = build_scheme();
    push_str(&mut v, ":");
    let t = build_hier_part();
    push_bytes(&mut v, t.as_slice());
    push_str(&mut v, "(\\?");
    let t = build_query();
    push_bytes(&mut v, t.as_slice());
    push_str(&mut v, ")?(#");
    let t = build_query();
    push_bytes(&mut v, t.as_slice());
    push_str(&mut v, ")?");
    v
}

/// The regular expression for `absolute-schema-nodeid` (RFC 7950).
#[verifier::opaque]
pub open spec fn pat_absolute_schema_nodeid() -> Seq<u8> {
    "(/".spec_bytes() + pat_node_id() + ")+".spec_bytes()
}

fn build_absolute_schema_nodeid() -> (r: Vec<u8>)
    ensures
        r@ == pat_absolute_schema_nodeid(),
{
    reveal(pat_absolute_schema_nodeid);
    let mut v = str_bytes("(/");
    let t = build_node_id();
    push_bytes(&mut v, t.as_slice());
    push_str(&mut v, ")+");
    v
}

/// The regular expression for `descendant-schema-nodeid` (RFC 7950).
#[verifier::opaque]
pub open spec fn pat_descendant_schema_nodeid() -> Seq<u8> {
    pat_node_id() + "(".spec_bytes() + pat_absolute_schema_nodeid() + ")?".spec_bytes()
}

fn build_descendant_schema_nodeid() -> (r: Vec<u8>)
    ensures
        r@ == pat_descendant_schema_nodeid(),
{
    reveal(pat_descendant_schema_nodeid);
    let mut v = build_node_id();
    push_str(&mut v, "(");
    let t = build_absolute_schema_nodeid();
    push_bytes(&mut v, t.as_slice());
    push_str(&mut v, ")?");
    v
}

/// The regular expression for `unique-arg` (RFC 7950).
#[verifier::opaque]
pub open spec fn pat_unique_arg() -> Seq<u8> {
    pat_descendant_schema_nodeid() + "(\\s+".spec_bytes() + pat_descendant_schema_nodeid() + ")*".spec_bytes()
}

fn build_unique_arg() -> (r: Vec<u8>)
    ensures
        r@ == pat_unique_arg(),
{
    reveal(pat_unique_arg);
    let mut v = build_descendant_schema_nodeid();
    push_str(&mut v, "(\\s+");
    let t = build_descendant_schema_nodeid();
    push_bytes(&mut v, t.as_slice());
    push_str(&mut v, ")*");
    v
}

/// The regular expression for `schema-nodeid` (RFC 7950).
#[verifier::opaque]
pub open spec fn pat_schema_nodeid() -> Seq<u8> {
    "(".spec_bytes() + pat_absolute_schema_nodeid() + "|".spec_bytes() + pat_descendant_schema_nodeid() + ")".spec_bytes()
}

fn build_schema_nodeid() -> (r: Vec<u8>)
    ensures
        r@ == pat_schema_nodeid(),
{
    reveal(pat_schema_nodeid);
    let mut v = str_bytes("(");
    let t = build_absolute_schema_nodeid();
    push_bytes(&mut v, t.as_slice());
    push_str(&mut v, "|");
    let t = build_descendant_schema_nodeid();
    push_bytes(&mut v, t.as_slice());
    push_str(&mut v, ")");
    v
}

/// The regular expression for a date.
#[verifier::opaque]
pub open spec fn pat_date() -> Seq<u8> {
    "[1-2][0-9]{3}-(0[1-9]|1[012])-(0[1-9]|[12][0-9]|3[01])".spec_bytes()
}

/// The regular expression for an identifier with an optional prefix.
#[verifier::opaque]
pub open spec fn pat_identifier_ref() -> Seq<u8> {
    "(([_A-Za-z][._\\-A-Za-z0-9]*):)?([_A-Za-z][._\\-A-Za-z0-9]*)".spec_bytes()
}

/// The regular expression for a `length` argument.
#[verifier::opaque]
pub open spec fn pat_length_arg() -> Seq<u8> {
    "((min|max|[0-9]+)\\s*(\\.\\.\\s*(min|max|[0-9]+)\\s*)?)(\\|\\s*((min|max|[0-9]+)\\s*(\\.\\.\\s*(min|max|[0-9]+)\\s*)?))*".spec_bytes()
}

/// The regular expression for a `range` argument.
#[verifier::opaque]
pub open spec fn pat_range_arg() -> Seq<u8> {
    "((\\-INF|min|max|((\\+|\\-)?[0-9]+(\\.[0-9]+)?))\\s*(\\.\\.\\s*(INF|min|max|(\\+|\\-)?[0-9]+(\\.[0-9]+)?)\\s*)?)(\\|\\s*((\\-INF|min|max|((\\+|\\-)?[0-9]+(\\.[0-9]+)?))\\s*(\\.\\.\\s*(INF|min|max|(\\+|\\-)?[0-9]+(\\.[0-9]+)?)\\s*)?))*".spec_bytes()
}

/// The regular expression for a `key` argument.
#[verifier::opaque]
pub open spec fn pat_key_arg() -> Seq<u8> {
    "(([_A-Za-z][._\\-A-Za-z0-9]*):)?([_A-Za-z][._\\-A-Za-z0-9]*)(\\s+(([_A-Za-z][._\\-A-Za-z0-9]*):)?([_A-Za-z][._\\-A-Za-z0-9]*))*".spec_bytes()
}

/// An argument type before its name is an atom: the name, how it checks,
/// its flags.
pub struct TypeDesc {
    pub name: Vec<u8>,
    pub syntax: ArgSyntax,
    pub flags: u32,
}

impl TypeDesc {
    pub open spec fn view(&self) -> (Seq<u8>, SyntaxV, u32) {
        (self.name@, self.syntax.view(), self.flags)
    }
}

pub open spec fn descs_view(v: Seq<TypeDesc>) -> Seq<(Seq<u8>, SyntaxV, u32)> {
    v.map_values(|d: TypeDesc| d.view())
}

/// A type checked by the pattern `p`, not yet compiled.
pub open spec fn by_pattern(name: Seq<u8>, p: Seq<u8>) -> (Seq<u8>, SyntaxV, u32) {
    (name, SyntaxV::Regexp(p), F_ARG_TYPE_SYNTAX_REGEXP)
}

/// A type checked by validator `v`, with the pattern it matches against.
pub open spec fn by_validator(name: Seq<u8>, v: Validator, p: Option<Seq<u8>>) -> (Seq<u8>, SyntaxV, u32) {
    (name, SyntaxV::Callback(v, p), F_ARG_TYPE_SYNTAX_CB)
}

/// The core argument types, in the order they are installed.
#[verifier::opaque]
pub open spec fn core_type_list() -> Seq<(Seq<u8>, SyntaxV, u32)> {
    seq![
        ("string".spec_bytes(), SyntaxV::Empty, 0u32),
        by_validator("identifier".spec_bytes(), Validator::Identifier, Some(pat_identifier())),
        by_pattern("version".spec_bytes(), "1|1\\.1".spec_bytes()),
        by_validator("date".spec_bytes(), Validator::Date, Some(pat_date())),
        by_pattern("ordered-by-arg".spec_bytes(), "user|system".spec_bytes()),
        by_pattern("boolean".spec_bytes(), "true|false".spec_bytes()),
        by_validator("max-value".spec_bytes(), Validator::MaxValue, None),
        by_validator("non-negative-integer".spec_bytes(), Validator::NonNegativeInteger, None),
        by_pattern("deviate-arg".spec_bytes(), "add|delete|replace|not-supported".spec_bytes()),
        by_pattern("=not-supported".spec_bytes(), "not-supported".spec_bytes()),
        by_pattern("=delete".spec_bytes(), "delete".spec_bytes()),
        by_pattern("=replace".spec_bytes(), "replace".spec_bytes()),
        by_validator("integer".spec_bytes(), Validator::Integer, None),
        by_pattern("status-arg".spec_bytes(), "current|obsolete|deprecated".spec_bytes()),
        by_pattern("modifier-arg".spec_bytes(), "invert-match".spec_bytes()),
        by_pattern("uri".spec_bytes(), pat_uri()),
        by_pattern("length-arg".spec_bytes(), pat_length_arg()),
        by_pattern("key-arg".spec_bytes(), pat_key_arg()),
        by_pattern("descendant-schema-nodeid".spec_bytes(), pat_descendant_schema_nodeid()),
        by_pattern("absolute-schema-nodeid".spec_bytes(), pat_absolute_schema_nodeid()),
        by_validator("enum-arg".spec_bytes(), Validator::EnumArg, None),
        by_pattern("range-arg".spec_bytes(), pat_range_arg()),
        by_pattern("identifier-ref".spec_bytes(), pat_identifier_ref()),
        by_validator("fraction-digits-arg".spec_bytes(), Validator::FractionDigitsArg, None),
        by_pattern("unique-arg".spec_bytes(), pat_unique_arg()),
        by_pattern("path-arg".spec_bytes(), pat_path_arg()),
        by_pattern("strict-path-arg".spec_bytes(), pat_strict_path_arg()),
        by_pattern("schema-nodeid".spec_bytes(), pat_schema_nodeid()),
        by_validator("if-feature-expr".spec_bytes(), Validator::IfFeatureExpr, Some(pat_identifier_ref())),
    ]
}

/// Making the atoms for the names of the types `l`, in order: the atoms
/// after, and the types.
pub open spec fn spec_named_types(atoms: Seq<Seq<u8>>, l: Seq<(Seq<u8>, SyntaxV, u32)>) -> (Seq<Seq<u8>>, Seq<ArgTypeV>)
    decreases l.len(),
{
    if l.len() == 0 {
        (atoms, Seq::empty())
    } else {
        let prev = spec_named_types(atoms, l.drop_last());
        let r = spec_intern(prev.0, l.last().0);
        (r.0, prev.1.push(ArgTypeV { name: r.1 as Atom, syntax: l.last().1, flags: l.last().2 }))
    }
}

/// Naming types gives one type for each.
pub proof fn lemma_named_types_len(atoms: Seq<Seq<u8>>, l: Seq<(Seq<u8>, SyntaxV, u32)>)
    ensures
        spec_named_types(atoms, l).1.len() == l.len(),
    decreases l.len(),
{
    if l.len() > 0 {
        lemma_named_types_len(atoms, l.drop_last());
    }
}

/// There are 29 core types.
pub proof fn lemma_core_type_count()
    ensures
        core_type_list().len() == 29,
{
    reveal(core_type_list);
}

pub fn pattern_desc(name: &str, p: Vec<u8>) -> (d: TypeDesc)
    ensures
        d.view() == by_pattern(name.spec_bytes(), p@),
{
    TypeDesc { name: str_bytes(name), syntax: ArgSyntax::Regexp(p), flags: F_ARG_TYPE_SYNTAX_REGEXP }
}

fn validator_desc(name: &str, v: Validator, p: Option<Vec<u8>>) -> (d: TypeDesc)
    ensures
        d.view() == by_validator(
            name.spec_bytes(),
            v,
            match p {
                Some(b) => Some(b@),
                None => None,
            },
        ),
{
    TypeDesc { name: str_bytes(name), syntax: ArgSyntax::Callback(v, p), flags: F_ARG_TYPE_SYNTAX_CB }
}

/// The core argument types, in the order they are installed.
pub fn core_type_descs() -> (r: Vec<TypeDesc>)
    ensures
        descs_view(r@) == core_type_list(),
        r@.len() == 29,
{
    let mut v: Vec<TypeDesc> = Vec::new();
    v.push(TypeDesc { name: str_bytes("string"), syntax: ArgSyntax::Empty, flags: 0 });
    v.push(validator_desc("identifier", Validator::Identifier, Some(build_identifier())));
    v.push(pattern_desc("version", str_bytes("1|1\\.1")));
    v.push(validator_desc("date", Validator::Date, Some(str_bytes("[1-2][0-9]{3}-(0[1-9]|1[012])-(0[1-9]|[12][0-9]|3[01])"))));
    v.push(pattern_desc("ordered-by-arg", str_bytes("user|system")));
    v.push(pattern_desc("boolean", str_bytes("true|false")));
    v.push(validator_desc("max-value", Validator::MaxValue, None));
    v.push(validator_desc("non-negative-integer", Validator::NonNegativeInteger, None));
    v.push(pattern_desc("deviate-arg", str_bytes("add|delete|replace|not-supported")));
    v.push(pattern_desc("=not-supported", str_bytes("not-supported")));
    v.push(pattern_desc("=delete", str_bytes("delete")));
    v.push(pattern_desc("=replace", str_bytes("replace")));
    v.push(validator_desc("integer", Validator::Integer, None));
    v.push(pattern_desc("status-arg", str_bytes("current|obsolete|deprecated")));
    v.push(pattern_desc("modifier-arg", str_bytes("invert-match")));
    v.push(pattern_desc("uri", build_uri()));
    v.push(pattern_desc("length-arg", str_bytes("((min|max|[0-9]+)\\s*(\\.\\.\\s*(min|max|[0-9]+)\\s*)?)(\\|\\s*((min|max|[0-9]+)\\s*(\\.\\.\\s*(min|max|[0-9]+)\\s*)?))*")));
    v.push(pattern_desc("key-arg", str_bytes("(([_A-Za-z][._\\-A-Za-z0-9]*):)?([_A-Za-z][._\\-A-Za-z0-9]*)(\\s+(([_A-Za-z][._\\-A-Za-z0-9]*):)?([_A-Za-z][._\\-A-Za-z0-9]*))*")));
    v.push(pattern_desc("descendant-schema-nodeid", build_descendant_schema_nodeid()));
    v.push(pattern_desc("absolute-schema-nodeid", build_absolute_schema_nodeid()));
    v.push(validator_desc("enum-arg", Validator::EnumArg, None));
    v.push(pattern_desc("range-arg", str_bytes("((\\-INF|min|max|((\\+|\\-)?[0-9]+(\\.[0-9]+)?))\\s*(\\.\\.\\s*(INF|min|max|(\\+|\\-)?[0-9]+(\\.[0-9]+)?)\\s*)?)(\\|\\s*((\\-INF|min|max|((\\+|\\-)?[0-9]+(\\.[0-9]+)?))\\s*(\\.\\.\\s*(INF|min|max|(\\+|\\-)?[0-9]+(\\.[0-9]+)?)\\s*)?))*")));
    v.push(pattern_desc("identifier-ref", str_bytes("(([_A-Za-z][._\\-A-Za-z0-9]*):)?([_A-Za-z][._\\-A-Za-z0-9]*)")));
    v.push(validator_desc("fraction-digits-arg", Validator::FractionDigitsArg, None));
    v.push(pattern_desc("unique-arg", build_unique_arg()));
    v.push(pattern_desc("path-arg", build_path_arg()));
    v.push(pattern_desc("strict-path-arg", build_strict_path_arg()));
    v.push(pattern_desc("schema-nodeid", build_schema_nodeid()));
    v.push(validator_desc("if-feature-expr", Validator::IfFeatureExpr, Some(str_bytes("(([_A-Za-z][._\\-A-Za-z0-9]*):)?([_A-Za-z][._\\-A-Za-z0-9]*)"))));
    proof {
        reveal(core_type_list);
        reveal(pat_date);
        reveal(pat_length_arg);
        reveal(pat_key_arg);
        reveal(pat_range_arg);
        reveal(pat_identifier_ref);
    }
    assert(descs_view(v@) =~= core_type_list());
    v
}

fn copy_syntax(s: &ArgSyntax) -> (r: ArgSyntax)
    ensures
        r.view() == s.view(),
{
    match s {
        ArgSyntax::Empty => ArgSyntax::Empty,
        ArgSyntax::Regexp(p) => ArgSyntax::Regexp(copy_bytes(p.as_slice())),
        ArgSyntax::Callback(v, p) => ArgSyntax::Callback(
            *v,
            match p {
                Some(b) => Some(copy_bytes(b.as_slice())),
                None => None,
            },
        ),
    }
}

/// The argument types that `descs` describe, with atoms made for their
/// names in order, as `spec_named_types` says.
pub fn make_types(atoms: &mut AtomTable, descs: &Vec<TypeDesc>) -> (r: Vec<YangArgType>)
    requires
        old(atoms).view().len() + descs@.len() < usize::MAX,
    ensures
        (final(atoms).view(), types_view(r@)) == spec_named_types(old(atoms).view(), descs_view(descs@)),
        final(atoms).view().len() <= old(atoms).view().len() + descs@.len(),
        r@.len() == descs@.len(),
{
    let ghost dv = descs_view(descs@);
    let mut r: Vec<YangArgType> = Vec::new();
    let mut i: usize = 0;
    assert(dv.subrange(0, 0) =~= Seq::<(Seq<u8>, SyntaxV, u32)>::empty());
    assert(types_view(r@) =~= Seq::<ArgTypeV>::empty());
    while i < descs.len()
        invariant
            dv == descs_view(descs@),
            i <= descs@.len(),
            atoms.view().len() <= old(atoms).view().len() + i,
            r@.len() == i,
            old(atoms).view().len() + descs@.len() < usize::MAX,
            (atoms.view(), types_view(r@)) == spec_named_types(old(atoms).view(), dv.subrange(0, i as int)),
        decreases descs@.len() - i,
    {
        let d = &descs[i];
        assert(dv[i as int] == d.view());
        let id = atoms.intern_bytes(d.name.as_slice());
        let ghost before = types_view(r@);
        r.push(YangArgType { name: id, syntax: copy_syntax(&d.syntax), flags: d.flags });
        assert(dv.subrange(0, i + 1).drop_last() =~= dv.subrange(0, i as int));
        assert(types_view(r@) =~= before.push(ArgTypeV { name: id, syntax: d.syntax.view(), flags: d.flags }));
        i = i + 1;
    }
    assert(dv.subrange(0, descs@.len() as int) =~= dv);
    r
}

/// Installs the core argument types; `c` tells whether a pattern compiles.
pub fn init_core_stmt_types<G: Fn(&[u8]) -> bool>(t: &mut GrammarTables, atoms: &mut AtomTable, c: &G) -> (ok: bool)
    requires
        compiler_ok(*c),
        old(atoms).view().len() + 29 < usize::MAX,
    ensures
        ({
            let nt = spec_named_types(old(atoms).view(), core_type_list());
            &&& final(atoms).view() == nt.0
            &&& (ok, final(t).tv()) == spec_install_types(old(t).tv(), nt.1, |p: Seq<u8>| compiles(*c, p), 0)
        }),
        final(t).gv() == old(t).gv(),
        final(t).am == old(t).am,
        final(atoms).view().len() <= old(atoms).view().len() + 29,
{
    let descs = core_type_descs();
    let types = make_types(atoms, &descs);
    yang_install_arg_types(t, &types, c)
}

} // verus!
