use vstd::prelude::*;
use vstd::string::StringSliceAdditionalSpecFns;
use vstd::utf8::encode_utf8;
use apk::res::{
    Chunk, ResSpan, ResValue, ResValueType, ResXmlAttribute, ResXmlEndElement, ResXmlNamespace,
    ResXmlNodeHeader, ResXmlStartElement,
};
use crate::shape::{manifest_shape, manifest_shape_ok};
use crate::text::{has_prefix, is_prefix, same_text};

verus! {

/// apk's decoded chunk, carried through opaque.
#[verifier::external_type_specification]
#[verifier::external_body]
pub struct ExChunk(Chunk);

/// apk's style span of a string pool, carried through opaque.
#[verifier::external_type_specification]
#[verifier::external_body]
pub struct ExResSpan(ResSpan);

/// apk's typed value; its public fields are read and written.
#[verifier::external_type_specification]
pub struct ExResValue(ResValue);

/// apk's attribute; its public fields are read and written.
#[verifier::external_type_specification]
pub struct ExResXmlAttribute(ResXmlAttribute);

/// apk's node header, carried through as decoded.
#[verifier::external_type_specification]
pub struct ExResXmlNodeHeader(ResXmlNodeHeader);

/// apk's start-element fields; the element name is read from them.
#[verifier::external_type_specification]
pub struct ExResXmlStartElement(ResXmlStartElement);

/// apk's namespace node fields, carried through as decoded.
#[verifier::external_type_specification]
pub struct ExResXmlNamespace(ResXmlNamespace);

/// apk's end-element fields, carried through as decoded.
#[verifier::external_type_specification]
pub struct ExResXmlEndElement(ResXmlEndElement);

/// The error that apk's codec returns.
#[verifier::external_type_specification]
#[verifier::external_body]
pub struct ExAnyhowError(anyhow::Error);

/// The typed value of an attribute as the binary document stores it.
#[derive(PartialEq, Eq, Structural, Clone, Copy, Debug)]
pub struct TypedValue {
    pub size: u16,
    pub res0: u8,
    pub data_type: u8,
    pub data: u32,
}

/// An attribute of an element; `name` and, for a string value, `raw_value`
/// and `typed_value.data` are indices into the string table.
#[derive(PartialEq, Eq, Structural, Clone, Copy, Debug)]
pub struct Attribute {
    pub namespace: i32,
    pub name: i32,
    pub raw_value: i32,
    pub typed_value: TypedValue,
}

/// What a recognised value-type tag stands for.
#[derive(PartialEq, Eq, Structural, Clone, Copy, Debug)]
pub enum ValueKind {
    /// An index into the string table.
    String,
    /// A value held inline: reference, boolean, integer, colour, float, ...
    Primitive,
}

/// Why an edit of the manifest failed.
#[derive(PartialEq, Eq, Structural, Clone, Copy, Debug)]
pub enum EditError {
    /// The bytes are not a binary document.
    Decode,
    /// The document is not an XML tree led by its string pool.
    Structure,
    /// No element of the name that the edit needs.
    MissingElement,
    /// The element lacks the attribute, or holds no string in it.
    MissingAttribute,
    /// The attribute's value-type tag is not one the format defines.
    UnknownValueType(u8),
    /// A string value points past the end of the string table.
    DanglingIndex(u32),
    /// The string table has no room for one more index.
    TableFull,
    /// The document could not be written back.
    Encode,
}

/// The value kinds that the format defines, by tag.
pub open spec fn kind_of(tag: u8) -> Option<ValueKind> {
    if tag == 0x03 {
        Some(ValueKind::String)
    } else if tag <= 0x06 || (0x10 <= tag <= 0x12) || (0x1c <= tag <= 0x1f) {
        Some(ValueKind::Primitive)
    } else {
        None
    }
}

/// Relies on apk's ResValueType::from_u8: it recognises exactly the tags
/// 0x00..=0x06, 0x10..=0x12 and 0x1c..=0x1f, and 0x03 is the string type.
#[verifier::external_body]
fn value_kind(tag: u8) -> (r: Option<ValueKind>)
    ensures
        r == kind_of(tag),
{
    match ResValueType::from_u8(tag) {
        None => None,
        Some(ResValueType::String) => Some(ValueKind::String),
        Some(_) => Some(ValueKind::Primitive),
    }
}

/// Relies on apk's ResValueType::String, whose tag is 0x03.
#[verifier::external_body]
fn string_value_type() -> (r: u8)
    ensures
        r == 0x03,
{
    ResValueType::String as u8
}

/// The largest index that the string table can hand out.
pub const MAX_STRING_INDEX: u32 = 0x7fff_ffff;

/// The string table as text.
pub open spec fn pool_view(pool: Seq<String>) -> Seq<Seq<char>> {
    pool.map_values(|s: String| s@)
}

/// `index` points at a string of the table equal to `name`.
pub open spec fn names_at(pool: Seq<Seq<char>>, index: i32, name: Seq<char>) -> bool {
    0 <= index < pool.len() && pool[index as int] == name
}

/// Why setting a string on `a` fails, if it does.
pub open spec fn attr_fault(a: Attribute, pool_len: nat) -> Option<EditError> {
    match kind_of(a.typed_value.data_type) {
        None => Some(EditError::UnknownValueType(a.typed_value.data_type)),
        Some(ValueKind::String) => if a.typed_value.data < pool_len {
            None
        } else {
            Some(EditError::DanglingIndex(a.typed_value.data))
        },
        Some(ValueKind::Primitive) => if pool_len <= MAX_STRING_INDEX {
            None
        } else {
            Some(EditError::TableFull)
        },
    }
}

/// The attribute after a string is set on it: a string value keeps its
/// index; an inline value becomes a string at the next free index, with
/// the raw value pointing there too.
pub open spec fn attr_after(a: Attribute, pool_len: nat) -> Attribute {
    if kind_of(a.typed_value.data_type) == Some(ValueKind::String) {
        a
    } else {
        Attribute {
            raw_value: pool_len as i32,
            typed_value: TypedValue { size: 8, res0: 0, data_type: 0x03, data: pool_len as u32 },
            ..a
        }
    }
}

/// The string table after `new` is set on `a`: the slot it points at is
/// overwritten, or `new` is appended.
pub open spec fn pool_after(a: Attribute, pool: Seq<Seq<char>>, new: Seq<char>) -> Seq<Seq<char>> {
    if kind_of(a.typed_value.data_type) == Some(ValueKind::String) {
        pool.update(a.typed_value.data as int, new)
    } else {
        pool.push(new)
    }
}

/// The string that `a` held before the edit, if it held one.
pub open spec fn prior_string(a: Attribute, pool: Seq<Seq<char>>) -> Option<Seq<char>> {
    if kind_of(a.typed_value.data_type) == Some(ValueKind::String) {
        Some(pool[a.typed_value.data as int])
    } else {
        None
    }
}

/// Whether the string at `index` equals `name`; false for an index outside
/// the table.
pub fn attr_has_name(index: i32, name: &str, string_pool: &[String]) -> (r: bool)
    ensures
        r == names_at(pool_view(string_pool@), index, name@),
{
    if index < 0 || index as usize >= string_pool.len() {
        return false;
    }
    same_text(string_pool[index as usize].as_str(), name)
}

/// Sets the string `name` as the value of `attr`, overwriting the slot it
/// points at or appending a new one, and returns the string it held.
pub fn edit_attr_string(attr: &mut Attribute, name: String, pool: &mut Vec<String>) -> (r: Result<
    Option<String>,
    EditError,
>)
    ensures
        match attr_fault(*old(attr), old(pool)@.len()) {
            Some(e) => r == Err::<Option<String>, EditError>(e) && *final(attr) == *old(attr)
                && final(pool)@ == old(pool)@,
            None => {
                &&& r is Ok
                &&& *final(attr) == attr_after(*old(attr), old(pool)@.len())
                &&& pool_view(final(pool)@) == pool_after(
                    *old(attr),
                    pool_view(old(pool)@),
                    name@,
                )
                &&& match (r->Ok_0, prior_string(*old(attr), pool_view(old(pool)@))) {
                    (Some(s), Some(p)) => s@ == p,
                    (None, None) => true,
                    _ => false,
                }
            },
        },
{
    let tag = attr.typed_value.data_type;
    match value_kind(tag) {
        None => Err(EditError::UnknownValueType(tag)),
        Some(ValueKind::String) => {
            let index = attr.typed_value.data;
            if index as usize >= pool.len() {
                return Err(EditError::DanglingIndex(index));
            }
            let prior = pool[index as usize].clone();
            pool.set(index as usize, name);
            assert(pool_view(pool@) =~= pool_view(old(pool)@).update(index as int, name@));
            Ok(Some(prior))
        },
        Some(ValueKind::Primitive) => {
            let len = pool.len();
            if len > MAX_STRING_INDEX as usize {
                return Err(EditError::TableFull);
            }
            attr.typed_value = TypedValue {
                size: 8,
                res0: 0,
                data_type: string_value_type(),
                data: len as u32,
            };
            attr.raw_value = len as i32;
            pool.push(name);
            assert(pool_view(pool@) =~= pool_view(old(pool)@).push(name@));
            Ok(None)
        },
    }
}

/// A start-element node: its name and attributes, with the codec's own
/// header fields carried through untouched.
pub struct Element {
    pub header: ResXmlNodeHeader,
    pub start: ResXmlStartElement,
    pub name: i32,
    pub attrs: Vec<Attribute>,
}

/// A node of the document body.
pub enum Node {
    Element(Element),
    /// Any other XML node, carried through as decoded.
    Other(OtherNode),
}

/// The XML nodes that the editor does not look into.
pub enum OtherNode {
    StartNamespace(ResXmlNodeHeader, ResXmlNamespace),
    EndNamespace(ResXmlNodeHeader, ResXmlNamespace),
    EndElement(ResXmlNodeHeader, ResXmlEndElement),
    ResourceMap(Vec<u32>),
}

/// What the editor sees of a node.
pub enum NodeView {
    Element { name: i32, attrs: Seq<Attribute> },
    Other,
}

pub open spec fn node_view(n: Node) -> NodeView {
    match n {
        Node::Element(e) => NodeView::Element { name: e.name, attrs: e.attrs@ },
        Node::Other(_) => NodeView::Other,
    }
}

pub open spec fn nodes_view(nodes: Seq<Node>) -> Seq<NodeView> {
    nodes.map_values(|n: Node| node_view(n))
}

/// The parts of a node that the editor never touches are the same.
pub open spec fn same_shell(a: Node, b: Node) -> bool {
    match (a, b) {
        (Node::Element(x), Node::Element(y)) => x.header == y.header && x.start == y.start,
        (Node::Other(c), Node::Other(d)) => c == d,
        _ => false,
    }
}

pub open spec fn shells_kept(a: Seq<Node>, b: Seq<Node>) -> bool {
    a.len() == b.len() && forall|i: int| 0 <= i < a.len() ==> same_shell(#[trigger] a[i], b[i])
}

pub open spec fn element_attrs(v: NodeView) -> Seq<Attribute> {
    match v {
        NodeView::Element { attrs, .. } => attrs,
        NodeView::Other => Seq::empty(),
    }
}

pub open spec fn element_name(v: NodeView) -> i32 {
    match v {
        NodeView::Element { name, .. } => name,
        NodeView::Other => -1i32,
    }
}

/// `v` is an element whose name is `name`.
pub open spec fn is_element_named(v: NodeView, name: Seq<char>, pool: Seq<Seq<char>>) -> bool {
    v is Element && names_at(pool, element_name(v), name)
}

/// The first index below `n` where `p` holds, or -1.
pub open spec fn first_where(n: nat, p: spec_fn(int) -> bool) -> int
    decreases n,
{
    if n == 0 {
        -1
    } else {
        let k = first_where((n - 1) as nat, p);
        if k >= 0 {
            k
        } else if p(n - 1) {
            n - 1
        } else {
            -1
        }
    }
}

pub proof fn lemma_first_where(n: nat, p: spec_fn(int) -> bool)
    ensures
        -1 <= first_where(n, p) < n,
        first_where(n, p) >= 0 ==> p(first_where(n, p)),
        forall|k: int|
            0 <= k < n && (first_where(n, p) < 0 || k < first_where(n, p)) ==> !#[trigger] p(k),
    decreases n,
{
    if n > 0 {
        lemma_first_where((n - 1) as nat, p);
    }
}

/// Index of the first element named `name`, or -1.
pub open spec fn first_element(nodes: Seq<NodeView>, name: Seq<char>, pool: Seq<Seq<char>>) -> int {
    first_where(nodes.len(), |i: int| is_element_named(nodes[i], name, pool))
}

/// Index of the first attribute named `name`, or -1.
pub open spec fn first_attr(attrs: Seq<Attribute>, name: Seq<char>, pool: Seq<Seq<char>>) -> int {
    first_where(attrs.len(), |i: int| names_at(pool, attrs[i].name, name))
}

/// Sets the string `new` on attribute `at` of the first element named `el`:
/// the new nodes and string table and the string the attribute held.
pub open spec fn set_attr_spec(
    nodes: Seq<NodeView>,
    pool: Seq<Seq<char>>,
    el: Seq<char>,
    at: Seq<char>,
    new: Seq<char>,
) -> Result<(Seq<NodeView>, Seq<Seq<char>>, Option<Seq<char>>), EditError> {
    let e = first_element(nodes, el, pool);
    if e < 0 {
        Err(EditError::MissingElement)
    } else {
        let attrs = element_attrs(nodes[e]);
        let k = first_attr(attrs, at, pool);
        if k < 0 {
            Err(EditError::MissingAttribute)
        } else {
            let a = attrs[k];
            match attr_fault(a, pool.len()) {
                Some(f) => Err(f),
                None => Ok(
                    (
                        nodes.update(
                            e,
                            NodeView::Element {
                                name: element_name(nodes[e]),
                                attrs: attrs.update(k, attr_after(a, pool.len())),
                            },
                        ),
                        pool_after(a, pool, new),
                        prior_string(a, pool),
                    ),
                ),
            }
        }
    }
}

/// Whether `node` is an element named `name`.
pub fn parse_element(node: &Node, name: &str, string_pool: &Vec<String>) -> (r: bool)
    ensures
        r == is_element_named(node_view(*node), name@, pool_view(string_pool@)),
{
    match node {
        Node::Element(e) => attr_has_name(e.name, name, string_pool.as_slice()),
        Node::Other(_) => false,
    }
}

/// Index of the first element named `name`.
pub fn find_element(nodes: &Vec<Node>, name: &str, pool: &Vec<String>) -> (r: Option<usize>)
    ensures
        match r {
            Some(i) => i < nodes@.len() && first_element(nodes_view(nodes@), name@, pool_view(pool@)) == i,
            None => first_element(nodes_view(nodes@), name@, pool_view(pool@)) == -1,
        },
{
    let ghost p = |i: int| is_element_named(nodes_view(nodes@)[i], name@, pool_view(pool@));
    proof {
        lemma_first_where(nodes@.len(), p);
    }
    let mut i: usize = 0;
    while i < nodes.len()
        invariant
            i <= nodes@.len(),
            p == (|i: int| is_element_named(nodes_view(nodes@)[i], name@, pool_view(pool@))),
            -1 <= first_where(nodes@.len(), p) < nodes@.len(),
            first_where(nodes@.len(), p) >= 0 ==> p(first_where(nodes@.len(), p)),
            forall|k: int|
                0 <= k < nodes@.len() && (first_where(nodes@.len(), p) < 0 || k < first_where(
                    nodes@.len(),
                    p,
                )) ==> !#[trigger] p(k),
            forall|k: int| 0 <= k < i ==> !#[trigger] p(k),
        decreases nodes@.len() - i,
    {
        if parse_element(&nodes[i], name, pool) {
            assert(p(i as int));
            return Some(i);
        }
        i = i + 1;
    }
    None
}

/// Index of the first attribute named `name`.
pub fn find_attribute(attrs: &Vec<Attribute>, name: &str, pool: &Vec<String>) -> (r: Option<usize>)
    ensures
        match r {
            Some(i) => i < attrs@.len() && first_attr(attrs@, name@, pool_view(pool@)) == i,
            None => first_attr(attrs@, name@, pool_view(pool@)) == -1,
        },
{
    let ghost p = |i: int| names_at(pool_view(pool@), attrs@[i].name, name@);
    proof {
        lemma_first_where(attrs@.len(), p);
    }
    let mut i: usize = 0;
    while i < attrs.len()
        invariant
            i <= attrs@.len(),
            p == (|i: int| names_at(pool_view(pool@), attrs@[i].name, name@)),
            -1 <= first_where(attrs@.len(), p) < attrs@.len(),
            first_where(attrs@.len(), p) >= 0 ==> p(first_where(attrs@.len(), p)),
            forall|k: int|
                0 <= k < attrs@.len() && (first_where(attrs@.len(), p) < 0 || k < first_where(
                    attrs@.len(),
                    p,
                )) ==> !#[trigger] p(k),
            forall|k: int| 0 <= k < i ==> !#[trigger] p(k),
        decreases attrs@.len() - i,
    {
        if attr_has_name(attrs[i].name, name, pool.as_slice()) {
            assert(p(i as int));
            return Some(i);
        }
        i = i + 1;
    }
    None
}

/// The typed value of the first attribute named `name`.
pub fn get_attribute_value(attrs: &Vec<Attribute>, name: &str, pool: &Vec<String>) -> (r: Option<
    TypedValue,
>)
    ensures
        ({
            let k = first_attr(attrs@, name@, pool_view(pool@));
            if k >= 0 {
                r == Some(attrs@[k].typed_value)
            } else {
                r is None
            }
        }),
{
    match find_attribute(attrs, name, pool) {
        Some(k) => Some(attrs[k].typed_value),
        None => None,
    }
}

/// Sets the string `new_str` on attribute `attr_name` of the first element
/// named `el_name`, and returns the string that the attribute held.
pub fn edit_attr_in_element(
    elements: &mut Vec<Node>,
    el_name: &str,
    attr_name: &str,
    new_str: String,
    pool: &mut Vec<String>,
) -> (r: Result<Option<String>, EditError>)
    ensures
        shells_kept(old(elements)@, final(elements)@),
        match set_attr_spec(
            nodes_view(old(elements)@),
            pool_view(old(pool)@),
            el_name@,
            attr_name@,
            new_str@,
        ) {
            Err(e) => r == Err::<Option<String>, EditError>(e) && nodes_view(final(elements)@)
                == nodes_view(old(elements)@) && final(pool)@ == old(pool)@,
            Ok((n, p, prior)) => {
                &&& r is Ok
                &&& nodes_view(final(elements)@) == n
                &&& pool_view(final(pool)@) == p
                &&& match (r->Ok_0, prior) {
                    (Some(s), Some(q)) => s@ == q,
                    (None, None) => true,
                    _ => false,
                }
            },
        },
{
    let e = match find_element(elements, el_name, pool) {
        Some(e) => e,
        None => return Err(EditError::MissingElement),
    };
    let ghost nv = nodes_view(elements@);
    let ghost pv = pool_view(pool@);
    proof {
        lemma_first_where(nv.len(), |i: int| is_element_named(nv[i], el_name@, pv));
        assert(nv[e as int] == node_view(elements@[e as int]));
    }
    let ghost old_attrs = element_attrs(nv[e as int]);
    let r = match &mut elements[e] {
        Node::Element(el) => {
            let k = match find_attribute(&el.attrs, attr_name, pool) {
                Some(k) => k,
                None => return Err(EditError::MissingAttribute),
            };
            let ghost a = el.attrs@[k as int];
            let r = edit_attr_string(&mut el.attrs[k], new_str, pool);
            proof {
                if r is Ok {
                    assert(el.attrs@ == old_attrs.update(k as int, attr_after(a, pv.len())));
                } else {
                    assert(el.attrs@ =~= old_attrs);
                }
            }
            r
        },
        Node::Other(_) => Err(EditError::MissingElement),
    };
    proof {
        if r is Ok {
            assert(nodes_view(elements@) =~= nodes_view(old(elements)@).update(
                e as int,
                node_view(elements@[e as int]),
            ));
        } else {
            assert(nodes_view(elements@) =~= nodes_view(old(elements)@));
        }
    }
    r
}

/// The string table after the authorities of one node are brought in line
/// with a renamed package: an element named `provider` whose first
/// `authorities` attribute holds a string starting with `old` gets that
/// prefix replaced by `new`, the rest kept as it was.
pub open spec fn fix_authority(
    v: NodeView,
    pool: Seq<Seq<char>>,
    old: Seq<char>,
    new: Seq<char>,
) -> Seq<Seq<char>> {
    if is_element_named(v, "provider"@, pool) {
        let attrs = element_attrs(v);
        let k = first_attr(attrs, "authorities"@, pool);
        if k >= 0 {
            let t = attrs[k].typed_value;
            let s = pool[t.data as int];
            if kind_of(t.data_type) == Some(ValueKind::String) && t.data < pool.len() && is_prefix(
                old,
                s,
            ) {
                pool.update(t.data as int, new + s.subrange(old.len() as int, s.len() as int))
            } else {
                pool
            }
        } else {
            pool
        }
    } else {
        pool
    }
}

/// The string table after the nodes before `upto` have been fixed, in order.
pub open spec fn fix_authorities(
    nodes: Seq<NodeView>,
    pool: Seq<Seq<char>>,
    old: Seq<char>,
    new: Seq<char>,
    upto: int,
) -> Seq<Seq<char>>
    decreases upto,
{
    if upto <= 0 {
        pool
    } else {
        fix_authority(nodes[upto - 1], fix_authorities(nodes, pool, old, new, upto - 1), old, new)
    }
}

/// Rewrites the authorities of every provider that start with `old_pkg` to
/// start with `new_pkg` instead.
pub fn fix_provider_authorities(
    nodes: &Vec<Node>,
    pool: &mut Vec<String>,
    old_pkg: &str,
    new_pkg: &str,
)
    ensures
        pool_view(final(pool)@) == fix_authorities(
            nodes_view(nodes@),
            pool_view(old(pool)@),
            old_pkg@,
            new_pkg@,
            nodes@.len() as int,
        ),
{
    let ghost nv = nodes_view(nodes@);
    let mut i: usize = 0;
    while i < nodes.len()
        invariant
            i <= nodes@.len(),
            nv == nodes_view(nodes@),
            pool_view(pool@) == fix_authorities(nv, pool_view(old(pool)@), old_pkg@, new_pkg@, i as int),
        decreases nodes@.len() - i,
    {
        let ghost before = pool_view(pool@);
        assert(nv[i as int] == node_view(nodes@[i as int]));
        if parse_element(&nodes[i], "provider", pool) {
            match &nodes[i] {
                Node::Element(el) => {
                    match get_attribute_value(&el.attrs, "authorities", pool) {
                        Some(v) => {
                            match value_kind(v.data_type) {
                                Some(ValueKind::String) => {
                                    if (v.data as usize) < pool.len() {
                                        let idx = v.data as usize;
                                        if has_prefix(pool[idx].as_str(), old_pkg) {
                                            let n = pool[idx].unicode_len();
                                            let m = old_pkg.unicode_len();
                                            let fixed = String::from_str(new_pkg).concat(
                                                pool[idx].as_str().substring_char(m, n),
                                            );
                                            pool.set(idx, fixed);
                                            assert(pool_view(pool@) =~= before.update(
                                                idx as int,
                                                fixed@,
                                            ));
                                        }
                                    }
                                },
                                _ => {},
                            }
                        },
                        None => {},
                    }
                },
                Node::Other(_) => {},
            }
        }
        i = i + 1;
    }
}

/// Sets the label of the first element named `el` to `label`; a missing
/// element or attribute leaves the document as it is.
pub open spec fn relabel(
    nodes: Seq<NodeView>,
    pool: Seq<Seq<char>>,
    el: Seq<char>,
    label: Seq<char>,
) -> Result<(Seq<NodeView>, Seq<Seq<char>>), EditError> {
    match set_attr_spec(nodes, pool, el, "label"@, label) {
        Err(EditError::MissingElement) => Ok((nodes, pool)),
        Err(EditError::MissingAttribute) => Ok((nodes, pool)),
        Err(e) => Err(e),
        Ok((n, p, _)) => Ok((n, p)),
    }
}

/// Sets the package name on the `manifest` element and carries the rename
/// into the provider authorities; the old name must have been a string.
pub open spec fn rename_package(
    nodes: Seq<NodeView>,
    pool: Seq<Seq<char>>,
    pkg: Seq<char>,
) -> Result<(Seq<NodeView>, Seq<Seq<char>>), EditError> {
    match set_attr_spec(nodes, pool, "manifest"@, "package"@, pkg) {
        Err(e) => Err(e),
        Ok((n, p, None)) => Err(EditError::MissingAttribute),
        Ok((n, p, Some(old))) => Ok((n, fix_authorities(n, p, old, pkg, n.len() as int))),
    }
}

/// The whole edit: the package rename when asked for, then the label of
/// `application` and of `activity` when a new name is asked for.
pub open spec fn edit_spec(
    nodes: Seq<NodeView>,
    pool: Seq<Seq<char>>,
    app: Option<Seq<char>>,
    pkg: Option<Seq<char>>,
) -> Result<(Seq<NodeView>, Seq<Seq<char>>), EditError> {
    let renamed = match pkg {
        None => Ok((nodes, pool)),
        Some(p) => rename_package(nodes, pool, p),
    };
    match renamed {
        Err(e) => Err(e),
        Ok((n1, pool1)) => match app {
            None => Ok((n1, pool1)),
            Some(a) => match relabel(n1, pool1, "application"@, a) {
                Err(e) => Err(e),
                Ok((n2, pool2)) => relabel(n2, pool2, "activity"@, a),
            },
        },
    }
}

pub open spec fn opt_view(o: Option<&str>) -> Option<Seq<char>> {
    match o {
        Some(s) => Some(s@),
        None => None,
    }
}

/// A decoded binary manifest: the string table, the pool's style spans
/// carried through, and the nodes of the body.
pub struct Document {
    pub strings: Vec<String>,
    pub styles: Vec<Vec<ResSpan>>,
    pub nodes: Vec<Node>,
}

/// Sets the label of the first element named `el`, skipping a missing
/// element or attribute.
pub fn edit_label(nodes: &mut Vec<Node>, pool: &mut Vec<String>, el: &str, label: &str) -> (r: Result<
    (),
    EditError,
>)
    ensures
        shells_kept(old(nodes)@, final(nodes)@),
        match relabel(nodes_view(old(nodes)@), pool_view(old(pool)@), el@, label@) {
            Ok((n, p)) => r is Ok && nodes_view(final(nodes)@) == n && pool_view(final(pool)@) == p,
            Err(e) => r == Err::<(), EditError>(e),
        },
{
    match edit_attr_in_element(nodes, el, "label", String::from_str(label), pool) {
        Ok(_) => Ok(()),
        Err(EditError::MissingElement) => Ok(()),
        Err(EditError::MissingAttribute) => Ok(()),
        Err(e) => Err(e),
    }
}

/// Applies the package rename and the label edit that are asked for.
pub fn edit_document(doc: &mut Document, name: Option<&str>, pkg_name: Option<&str>) -> (r: Result<
    (),
    EditError,
>)
    ensures
        shells_kept(old(doc).nodes@, final(doc).nodes@),
        match edit_spec(
            nodes_view(old(doc).nodes@),
            pool_view(old(doc).strings@),
            opt_view(name),
            opt_view(pkg_name),
        ) {
            Ok((n, p)) => r is Ok && nodes_view(final(doc).nodes@) == n && pool_view(
                final(doc).strings@,
            ) == p,
            Err(e) => r == Err::<(), EditError>(e),
        },
{
    if let Some(pkgname) = pkg_name {
        let prior = edit_attr_in_element(
            &mut doc.nodes,
            "manifest",
            "package",
            String::from_str(pkgname),
            &mut doc.strings,
        );
        let old_pkg = match prior {
            Err(e) => return Err(e),
            Ok(None) => return Err(EditError::MissingAttribute),
            Ok(Some(s)) => s,
        };
        fix_provider_authorities(&doc.nodes, &mut doc.strings, old_pkg.as_str(), pkgname);
    }
    if let Some(app_name) = name {
        match edit_label(&mut doc.nodes, &mut doc.strings, "application", app_name) {
            Err(e) => return Err(e),
            Ok(()) => {},
        }
        match edit_label(&mut doc.nodes, &mut doc.strings, "activity", app_name) {
            Err(e) => return Err(e),
            Ok(()) => {},
        }
    }
    Ok(())
}

/// Every string is under 0x7f bytes in UTF-8, the most that apk's writer
/// puts in a string pool.
pub open spec fn pool_fits(pool: Seq<Seq<char>>) -> bool {
    forall|i: int| 0 <= i < pool.len() ==> encode_utf8(#[trigger] pool[i]).len() < 0x7f
}

pub open spec fn pool_writable(pool: Seq<String>) -> bool {
    pool_fits(pool_view(pool))
}

/// What apk's decoder makes of the bytes: the string table and the nodes
/// of an XML tree led by its string pool, or nothing.
pub uninterp spec fn decoded_of(b: Seq<u8>) -> Option<(Seq<Seq<char>>, Seq<NodeView>)>;

/// Relies on apk's Chunk variants: a decoded XML node as a library node,
/// field for field; a chunk of any other kind gives nothing.
#[verifier::external_body]
fn node_of_chunk(c: Chunk) -> (r: Option<Node>) {
    match c {
        Chunk::XmlStartElement(header, start, attrs) => Some(Node::Element(Element {
            header,
            start,
            name: start.name,
            attrs: attrs.iter().map(attribute_from_raw).collect(),
        })),
        Chunk::XmlStartNamespace(h, n) => Some(Node::Other(OtherNode::StartNamespace(h, n))),
        Chunk::XmlEndNamespace(h, n) => Some(Node::Other(OtherNode::EndNamespace(h, n))),
        Chunk::XmlEndElement(h, e) => Some(Node::Other(OtherNode::EndElement(h, e))),
        Chunk::XmlResourceMap(map) => Some(Node::Other(OtherNode::ResourceMap(map))),
        _ => None,
    }
}

/// Relies on apk's Chunk variants: a library node as the chunk it came
/// from, field for field.
#[verifier::external_body]
fn chunk_of_node(n: Node) -> (r: Chunk) {
    match n {
        Node::Element(e) => Chunk::XmlStartElement(
            e.header,
            e.start,
            e.attrs.iter().map(attribute_to_raw).collect(),
        ),
        Node::Other(OtherNode::StartNamespace(h, n)) => Chunk::XmlStartNamespace(h, n),
        Node::Other(OtherNode::EndNamespace(h, n)) => Chunk::XmlEndNamespace(h, n),
        Node::Other(OtherNode::EndElement(h, e)) => Chunk::XmlEndElement(h, e),
        Node::Other(OtherNode::ResourceMap(map)) => Chunk::XmlResourceMap(map),
    }
}

/// Relies on apk's Chunk::parse, which reads such bytes without fault: the
/// string table and nodes of the XML tree, as `decoded_of` names them.
/// Its own error is `Decode`; a tree not led by a string pool, or holding
/// another kind of chunk, is `Structure`.
#[verifier::external_body]
fn parse_document(bytes: &[u8]) -> (r: Result<(Vec<String>, Vec<Vec<ResSpan>>, Vec<Node>), EditError>)
    requires
        manifest_shape(bytes@),
    ensures
        match r {
            Ok((strings, _, nodes)) => decoded_of(bytes@) == Some(
                (pool_view(strings@), nodes_view(nodes@)),
            ),
            Err(e) => decoded_of(bytes@) is None && (e == EditError::Decode || e
                == EditError::Structure),
        },
{
    let mut rest = match Chunk::parse(&mut std::io::Cursor::new(bytes)) {
        Ok(Chunk::Xml(children)) => children.into_iter(),
        Ok(_) => return Err(EditError::Structure),
        Err(_) => return Err(EditError::Decode),
    };
    let (strings, styles) = match rest.next() {
        Some(Chunk::StringPool(strings, styles)) => (strings, styles),
        _ => return Err(EditError::Structure),
    };
    match rest.map(node_of_chunk).collect::<Option<Vec<Node>>>() {
        Some(nodes) => Ok((strings, styles, nodes)),
        None => Err(EditError::Structure),
    }
}

/// Relies on apk's Chunk::write: encodes an XML tree led by the string
/// pool. Its writer asserts that every string is under 0x7f bytes; XML
/// nodes it writes without fault, and writing into a vector never fails.
#[verifier::external_body]
fn write_xml(strings: Vec<String>, styles: Vec<Vec<ResSpan>>, nodes: Vec<Node>) -> (r: Result<
    Vec<u8>,
    anyhow::Error,
>)
    requires
        pool_writable(strings@),
    ensures
        r is Ok,
{
    let mut all = vec![Chunk::StringPool(strings, styles)];
    all.extend(nodes.into_iter().map(chunk_of_node));
    let mut out: Vec<u8> = Vec::new();
    match Chunk::Xml(all).write(&mut std::io::Cursor::new(&mut out)) {
        Ok(()) => Ok(out),
        Err(e) => Err(e),
    }
}

/// The library's form of a codec attribute: the same fields.
pub open spec fn attr_of_raw(a: ResXmlAttribute) -> Attribute {
    Attribute {
        namespace: a.namespace,
        name: a.name,
        raw_value: a.raw_value,
        typed_value: TypedValue {
            size: a.typed_value.size,
            res0: a.typed_value.res0,
            data_type: a.typed_value.data_type,
            data: a.typed_value.data,
        },
    }
}

/// The library's form of a decoded attribute.
pub fn attribute_from_raw(a: &ResXmlAttribute) -> (r: Attribute)
    ensures
        r == attr_of_raw(*a),
{
    Attribute {
        namespace: a.namespace,
        name: a.name,
        raw_value: a.raw_value,
        typed_value: TypedValue {
            size: a.typed_value.size,
            res0: a.typed_value.res0,
            data_type: a.typed_value.data_type,
            data: a.typed_value.data,
        },
    }
}

/// The codec's form of an attribute.
pub fn attribute_to_raw(a: &Attribute) -> (r: ResXmlAttribute)
    ensures
        attr_of_raw(r) == *a,
{
    ResXmlAttribute {
        namespace: a.namespace,
        name: a.name,
        raw_value: a.raw_value,
        typed_value: ResValue {
            size: a.typed_value.size,
            res0: a.typed_value.res0,
            data_type: a.typed_value.data_type,
            data: a.typed_value.data,
        },
    }
}

/// Decodes a binary manifest: an XML tree whose first child is the string
/// pool and whose other children are XML nodes. Bytes that the decoder
/// could not read without fault are refused as `Decode`.
pub fn decode_document(bytes: &[u8]) -> (r: Result<Document, EditError>)
    ensures
        !manifest_shape(bytes@) ==> r == Err::<Document, EditError>(EditError::Decode),
        manifest_shape(bytes@) ==> match decoded_of(bytes@) {
            None => r matches Err(e) && (e == EditError::Decode || e == EditError::Structure),
            Some((pool, nodes)) => r matches Ok(d) && pool_view(d.strings@) == pool && nodes_view(
                d.nodes@,
            ) == nodes,
        },
{
    if !manifest_shape_ok(bytes) {
        return Err(EditError::Decode);
    }
    match parse_document(bytes) {
        Ok((strings, styles, nodes)) => Ok(Document { strings, styles, nodes }),
        Err(e) => Err(e),
    }
}

/// Encodes a document: the string pool, then the nodes in order. It fails,
/// with `Encode`, exactly when a string is too long for the pool.
pub fn encode_document(doc: Document) -> (r: Result<Vec<u8>, EditError>)
    ensures
        r is Ok <==> pool_writable(doc.strings@),
        r matches Err(e) ==> e == EditError::Encode,
{
    let ghost original = doc.strings@;
    let Document { strings, styles, nodes } = doc;
    let mut i: usize = 0;
    while i < strings.len()
        invariant
            strings@ == original,
            original == doc.strings@,
            i <= strings@.len(),
            forall|k: int| 0 <= k < i ==> encode_utf8(#[trigger] pool_view(strings@)[k]).len() < 0x7f,
        decreases strings@.len() - i,
    {
        let t = strings[i].as_str();
        let n = t.as_bytes().len();
        assert(t.spec_bytes() == encode_utf8(pool_view(strings@)[i as int]));
        if n >= 0x7f {
            assert(!pool_fits(pool_view(strings@)));
            return Err(EditError::Encode);
        }
        i = i + 1;
    }
    match write_xml(strings, styles, nodes) {
        Ok(bytes) => Ok(bytes),
        Err(_) => Err(EditError::Encode),
    }
}

/// Patches a binary manifest: renames the package and its provider
/// authorities, and relabels the application and its activity, as asked.
/// Bytes that do not decode give `Decode` or `Structure`; otherwise the
/// outcome is that of `edit_spec` on the decoded tree, and the edited tree
/// encodes exactly when its strings fit the pool.
pub fn edit_manifest(manifest: &[u8], name: Option<&str>, pkg_name: Option<&str>) -> (r: Result<
    Vec<u8>,
    EditError,
>)
    ensures
        !manifest_shape(manifest@) ==> r == Err::<Vec<u8>, EditError>(EditError::Decode),
        manifest_shape(manifest@) ==> match decoded_of(manifest@) {
            None => r matches Err(e) && (e == EditError::Decode || e == EditError::Structure),
            Some((pool, nodes)) => match edit_spec(nodes, pool, opt_view(name), opt_view(pkg_name)) {
                Err(e) => r == Err::<Vec<u8>, EditError>(e),
                Ok((_, edited)) => if pool_fits(edited) {
                    r is Ok
                } else {
                    r == Err::<Vec<u8>, EditError>(EditError::Encode)
                },
            },
        },
{
    let mut doc = match decode_document(manifest) {
        Ok(d) => d,
        Err(e) => return Err(e),
    };
    match edit_document(&mut doc, name, pkg_name) {
        Ok(()) => {},
        Err(e) => return Err(e),
    }
    encode_document(doc)
}

/// The string that attribute `a` holds, if it holds one that the table has.
pub open spec fn text_of(a: Attribute, pool: Seq<Seq<char>>) -> Option<Seq<char>> {
    if kind_of(a.typed_value.data_type) == Some(ValueKind::String) && a.typed_value.data
        < pool.len() {
        Some(pool[a.typed_value.data as int])
    } else {
        None
    }
}

/// With neither a new name nor a new package asked for, the edit succeeds
/// and leaves the nodes and the string table as they were.
pub proof fn lemma_no_edit_keeps_document(nodes: Seq<NodeView>, pool: Seq<Seq<char>>)
    ensures
        edit_spec(nodes, pool, None, None) == Ok::<(Seq<NodeView>, Seq<Seq<char>>), EditError>(
            (nodes, pool),
        ),
{
}

/// Setting a string on an attribute that is found makes that attribute read
/// the new string, and touches no other node.
pub proof fn lemma_set_attr_reads_new(
    nodes: Seq<NodeView>,
    pool: Seq<Seq<char>>,
    el: Seq<char>,
    at: Seq<char>,
    new: Seq<char>,
)
    requires
        set_attr_spec(nodes, pool, el, at, new) is Ok,
    ensures
        ({
            let (n, p, _) = set_attr_spec(nodes, pool, el, at, new)->Ok_0;
            let e = first_element(nodes, el, pool);
            let k = first_attr(element_attrs(nodes[e]), at, pool);
            &&& 0 <= e < nodes.len()
            &&& 0 <= k < element_attrs(nodes[e]).len()
            &&& n.len() == nodes.len()
            &&& n[e] is Element
            &&& element_name(n[e]) == element_name(nodes[e])
            &&& text_of(element_attrs(n[e])[k], p) == Some(new)
            &&& forall|i: int| 0 <= i < nodes.len() && i != e ==> n[i] == nodes[i]
        }),
{
    let e = first_element(nodes, el, pool);
    lemma_first_where(nodes.len(), |i: int| is_element_named(nodes[i], el, pool));
    let attrs = element_attrs(nodes[e]);
    lemma_first_where(attrs.len(), |i: int| names_at(pool, attrs[i].name, at));
}

/// A label edit where the element or its `label` attribute is missing is
/// no error: the document stays as it was.
pub proof fn lemma_missing_label_is_skipped(
    nodes: Seq<NodeView>,
    pool: Seq<Seq<char>>,
    el: Seq<char>,
    label: Seq<char>,
)
    requires
        first_element(nodes, el, pool) < 0 || first_attr(
            element_attrs(nodes[first_element(nodes, el, pool)]),
            "label"@,
            pool,
        ) < 0,
    ensures
        relabel(nodes, pool, el, label) == Ok::<(Seq<NodeView>, Seq<Seq<char>>), EditError>(
            (nodes, pool),
        ),
{
}

/// The slot of the string table that setting a string on `a` writes.
pub open spec fn slot_written(a: Attribute, pool_len: nat) -> int {
    if kind_of(a.typed_value.data_type) == Some(ValueKind::String) {
        a.typed_value.data as int
    } else {
        pool_len as int
    }
}

/// No element name and no attribute name of `nodes` points at slot `j`.
pub open spec fn names_clear_of(nodes: Seq<NodeView>, j: int) -> bool {
    forall|i: int|
        0 <= i < nodes.len() ==> element_name(#[trigger] nodes[i]) != j && forall|k: int|
            0 <= k < element_attrs(nodes[i]).len() ==> (#[trigger] element_attrs(nodes[i])[k]).name
                != j
}

proof fn lemma_first_where_congruent(n: nat, p: spec_fn(int) -> bool, q: spec_fn(int) -> bool)
    requires
        forall|i: int| 0 <= i < n ==> #[trigger] p(i) == q(i),
    ensures
        first_where(n, p) == first_where(n, q),
    decreases n,
{
    if n > 0 {
        lemma_first_where_congruent((n - 1) as nat, p, q);
    }
}

/// Lookups by name agree on two tables where every slot that differs, or
/// that only the second has, is one that no name points at.
proof fn lemma_lookups_agree(
    nodes: Seq<NodeView>,
    pool: Seq<Seq<char>>,
    pool2: Seq<Seq<char>>,
    el: Seq<char>,
    at: Seq<char>,
)
    requires
        pool2.len() >= pool.len(),
        forall|x: int|
            0 <= x < pool2.len() && (x >= pool.len() || pool2[x] != pool[x]) ==> names_clear_of(
                nodes,
                x,
            ),
    ensures
        forall|i: int|
            0 <= i < nodes.len() ==> is_element_named(#[trigger] nodes[i], el, pool2)
                == is_element_named(nodes[i], el, pool),
        first_element(nodes, el, pool2) == first_element(nodes, el, pool),
        forall|e: int|
            0 <= e < nodes.len() ==> first_attr(element_attrs(#[trigger] nodes[e]), at, pool2)
                == first_attr(element_attrs(nodes[e]), at, pool),
{
    assert forall|i: int| 0 <= i < nodes.len() implies is_element_named(
        #[trigger] nodes[i],
        el,
        pool2,
    ) == is_element_named(nodes[i], el, pool) by {
        let x = element_name(nodes[i]) as int;
        if 0 <= x < pool2.len() && (x >= pool.len() || pool2[x] != pool[x]) {
            assert(names_clear_of(nodes, x));
        }
    }
    lemma_first_where_congruent(
        nodes.len(),
        |i: int| is_element_named(nodes[i], el, pool2),
        |i: int| is_element_named(nodes[i], el, pool),
    );
    assert forall|e: int| 0 <= e < nodes.len() implies first_attr(
        element_attrs(#[trigger] nodes[e]),
        at,
        pool2,
    ) == first_attr(element_attrs(nodes[e]), at, pool) by {
        let attrs = element_attrs(nodes[e]);
        assert forall|k: int| 0 <= k < attrs.len() implies #[trigger] names_at(
            pool2,
            attrs[k].name,
            at,
        ) == names_at(pool, attrs[k].name, at) by {
            let x = attrs[k].name as int;
            if 0 <= x < pool2.len() && (x >= pool.len() || pool2[x] != pool[x]) {
                assert(names_clear_of(nodes, x));
                assert(element_attrs(nodes[e])[k].name != x);
            }
        }
        lemma_first_where_congruent(
            attrs.len(),
            |k: int| names_at(pool2, attrs[k].name, at),
            |k: int| names_at(pool, attrs[k].name, at),
        );
    }
}

/// A new display name reaches both labels: where the first `application`
/// and the first `activity` element each have a `label` that can take a
/// string, and no element or attribute name shares the slot that the
/// application's label writes, the edit succeeds and both labels read the
/// new name.
pub proof fn lemma_label_rename(nodes: Seq<NodeView>, pool: Seq<Seq<char>>, label: Seq<char>)
    requires
        pool.len() < MAX_STRING_INDEX,
        first_element(nodes, "application"@, pool) >= 0,
        first_element(nodes, "activity"@, pool) >= 0,
        first_attr(
            element_attrs(nodes[first_element(nodes, "application"@, pool)]),
            "label"@,
            pool,
        ) >= 0,
        first_attr(element_attrs(nodes[first_element(nodes, "activity"@, pool)]), "label"@, pool)
            >= 0,
        attr_fault(
            element_attrs(nodes[first_element(nodes, "application"@, pool)])[first_attr(
                element_attrs(nodes[first_element(nodes, "application"@, pool)]),
                "label"@,
                pool,
            )],
            pool.len(),
        ) is None,
        attr_fault(
            element_attrs(nodes[first_element(nodes, "activity"@, pool)])[first_attr(
                element_attrs(nodes[first_element(nodes, "activity"@, pool)]),
                "label"@,
                pool,
            )],
            pool.len(),
        ) is None,
        names_clear_of(
            nodes,
            slot_written(
                element_attrs(nodes[first_element(nodes, "application"@, pool)])[first_attr(
                    element_attrs(nodes[first_element(nodes, "application"@, pool)]),
                    "label"@,
                    pool,
                )],
                pool.len(),
            ),
        ),
    ensures
        edit_spec(nodes, pool, Some(label), None) is Ok,
        ({
            let (n, p) = edit_spec(nodes, pool, Some(label), None)->Ok_0;
            let e1 = first_element(nodes, "application"@, pool);
            let e2 = first_element(nodes, "activity"@, pool);
            let k1 = first_attr(element_attrs(nodes[e1]), "label"@, pool);
            let k2 = first_attr(element_attrs(nodes[e2]), "label"@, pool);
            &&& text_of(element_attrs(n[e1])[k1], p) == Some(label)
            &&& text_of(element_attrs(n[e2])[k2], p) == Some(label)
        }),
{
    reveal_strlit("application");
    reveal_strlit("activity");
    let app = "application"@;
    let act = "activity"@;
    let e1 = first_element(nodes, app, pool);
    let e2 = first_element(nodes, act, pool);
    lemma_first_where(nodes.len(), |i: int| is_element_named(nodes[i], app, pool));
    lemma_first_where(nodes.len(), |i: int| is_element_named(nodes[i], act, pool));
    assert(e1 != e2) by {
        assert(app.len() != act.len());
    }
    let k1 = first_attr(element_attrs(nodes[e1]), "label"@, pool);
    let a1 = element_attrs(nodes[e1])[k1];
    lemma_set_attr_reads_new(nodes, pool, app, "label"@, label);
    let (n1, pool1, _) = set_attr_spec(nodes, pool, app, "label"@, label)->Ok_0;
    let j = slot_written(a1, pool.len());
    assert(n1 == nodes.update(
        e1,
        NodeView::Element {
            name: element_name(nodes[e1]),
            attrs: element_attrs(nodes[e1]).update(k1, attr_after(a1, pool.len())),
        },
    ));
    assert(names_clear_of(n1, j)) by {
        assert forall|i: int| 0 <= i < n1.len() implies element_name(#[trigger] n1[i]) != j
            && forall|k: int|
            0 <= k < element_attrs(n1[i]).len() ==> (#[trigger] element_attrs(n1[i])[k]).name
                != j by {
            if i == e1 {
                assert forall|k: int| 0 <= k < element_attrs(n1[i]).len() implies (
                #[trigger] element_attrs(n1[i])[k]).name != j by {
                    assert(element_attrs(nodes[i])[k].name != j);
                }
            }
        }
    }
    lemma_lookups_agree(n1, pool, pool1, act, "label"@);
    assert(first_element(n1, act, pool) == e2) by {
        lemma_first_where_congruent(
            nodes.len(),
            |i: int| is_element_named(n1[i], act, pool),
            |i: int| is_element_named(nodes[i], act, pool),
        );
    }
    assert(n1[e2] == nodes[e2]);
    lemma_set_attr_reads_new(n1, pool1, act, "label"@, label);
}

/// The slot holding the authorities of `v`, when `v` is a provider whose
/// first `authorities` attribute holds a string of the table; else -1.
#[verifier::opaque]
pub open spec fn authority_slot(v: NodeView, pool: Seq<Seq<char>>) -> int {
    if is_element_named(v, "provider"@, pool) {
        let attrs = element_attrs(v);
        let k = first_attr(attrs, "authorities"@, pool);
        if k >= 0 && text_of(attrs[k], pool) is Some {
            attrs[k].typed_value.data as int
        } else {
            -1
        }
    } else {
        -1
    }
}

/// `s` with the prefix `old` replaced by `new`, when it starts with `old`.
pub open spec fn reprefixed(s: Seq<char>, old: Seq<char>, new: Seq<char>) -> Seq<char> {
    if is_prefix(old, s) {
        new + s.subrange(old.len() as int, s.len() as int)
    } else {
        s
    }
}

/// The providers' authority slots are apart from each other and from every
/// element and attribute name.
pub open spec fn authorities_apart(nodes: Seq<NodeView>, pool: Seq<Seq<char>>) -> bool {
    &&& forall|i: int, m: int|
        0 <= i < m < nodes.len() && authority_slot(#[trigger] nodes[i], pool) >= 0
            ==> authority_slot(nodes[i], pool) != authority_slot(#[trigger] nodes[m], pool)
    &&& forall|i: int|
        0 <= i < nodes.len() && authority_slot(#[trigger] nodes[i], pool) >= 0 ==> names_clear_of(
            nodes,
            authority_slot(nodes[i], pool),
        )
}

/// The authority slot of a node is the same on two tables that differ only
/// where no name points.
proof fn lemma_authority_slot_agrees(
    nodes: Seq<NodeView>,
    pool: Seq<Seq<char>>,
    pool2: Seq<Seq<char>>,
    idx: int,
)
    requires
        0 <= idx < nodes.len(),
        pool2.len() == pool.len(),
        forall|x: int| 0 <= x < pool.len() && pool2[x] != pool[x] ==> names_clear_of(nodes, x),
    ensures
        authority_slot(nodes[idx], pool2) == authority_slot(nodes[idx], pool),
        authority_slot(nodes[idx], pool) < pool.len(),
{
    reveal(authority_slot);
    lemma_lookups_agree(nodes, pool, pool2, "provider"@, "authorities"@);
    assert(is_element_named(nodes[idx], "provider"@, pool2) == is_element_named(
        nodes[idx],
        "provider"@,
        pool,
    ));
    assert(first_attr(element_attrs(nodes[idx]), "authorities"@, pool2) == first_attr(
        element_attrs(nodes[idx]),
        "authorities"@,
        pool,
    ));
}

proof fn lemma_fix_authority_shape(v: NodeView, q: Seq<Seq<char>>, old: Seq<char>, new: Seq<char>)
    ensures
        fix_authority(v, q, old, new) == if authority_slot(v, q) >= 0 {
            q.update(authority_slot(v, q), reprefixed(q[authority_slot(v, q)], old, new))
        } else {
            q
        },
{
    reveal(authority_slot);
    let s = authority_slot(v, q);
    if s >= 0 && !is_prefix(old, q[s]) {
        assert(q.update(s, q[s]) =~= q);
    }
}

/// Where the authority slots are apart, the fix-up gives every provider's
/// authorities the new prefix (when they start with the old one) and
/// leaves every other slot as it was.
#[verifier::rlimit(40)]
pub proof fn lemma_fix_authorities(
    nodes: Seq<NodeView>,
    pool: Seq<Seq<char>>,
    old: Seq<char>,
    new: Seq<char>,
    upto: int,
)
    requires
        0 <= upto <= nodes.len(),
        authorities_apart(nodes, pool),
    ensures
        ({
            let q = fix_authorities(nodes, pool, old, new, upto);
            &&& q.len() == pool.len()
            &&& forall|i: int|
                0 <= i < upto && authority_slot(#[trigger] nodes[i], pool) >= 0 ==> q[authority_slot(
                    nodes[i],
                    pool,
                )] == reprefixed(pool[authority_slot(nodes[i], pool)], old, new)
            &&& forall|x: int|
                0 <= x < pool.len() && (forall|i: int|
                    0 <= i < upto ==> authority_slot(#[trigger] nodes[i], pool) != x) ==> q[x]
                    == pool[x]
        }),
    decreases upto,
{
    if upto > 0 {
        lemma_fix_authorities(nodes, pool, old, new, upto - 1);
        let q = fix_authorities(nodes, pool, old, new, upto - 1);
        let v = nodes[upto - 1];
        assert forall|x: int| 0 <= x < pool.len() && q[x] != pool[x] implies names_clear_of(
            nodes,
            x,
        ) by {
            if forall|i: int| 0 <= i < upto - 1 ==> authority_slot(#[trigger] nodes[i], pool) != x {
            } else {
                let i = choose|i: int|
                    0 <= i < upto - 1 && authority_slot(#[trigger] nodes[i], pool) == x;
                assert(authority_slot(nodes[i], pool) >= 0);
            }
        }
        lemma_authority_slot_agrees(nodes, pool, q, upto - 1);
        let s = authority_slot(v, pool);
        lemma_fix_authority_shape(v, q, old, new);
        let q2 = fix_authorities(nodes, pool, old, new, upto);
        assert(q2 == fix_authority(v, q, old, new));
        if s >= 0 {
            assert forall|i: int| 0 <= i < upto - 1 implies authority_slot(
                #[trigger] nodes[i],
                pool,
            ) != s by {
                if authority_slot(nodes[i], pool) >= 0 {
                    assert(authority_slot(nodes[i], pool) != authority_slot(nodes[upto - 1], pool));
                }
            }
            assert(q[s] == pool[s]);
        }
        assert forall|i: int|
            0 <= i < upto && authority_slot(#[trigger] nodes[i], pool) >= 0 implies q2[authority_slot(
                nodes[i],
                pool,
            )] == reprefixed(pool[authority_slot(nodes[i], pool)], old, new) by {
            lemma_authority_slot_agrees(nodes, pool, q, i);
            if i < upto - 1 && s >= 0 {
                assert(authority_slot(nodes[i], pool) != authority_slot(nodes[upto - 1], pool));
            }
        }
        assert forall|x: int|
            0 <= x < pool.len() && (forall|i: int|
                0 <= i < upto ==> authority_slot(#[trigger] nodes[i], pool) != x) implies q2[x]
                == pool[x] by {
            assert(authority_slot(nodes[upto - 1], pool) != x);
        }
    }
}

/// A package rename reaches the provider authorities: where the `package`
/// attribute of the first `manifest` element holds a string, its slot and
/// the providers' authority slots are apart from each other and from every
/// name, the rename succeeds; `package` then reads the new name, each
/// provider's authorities that started with the old name start with the
/// new one instead, the rest of them kept, and no other string changes.
pub proof fn lemma_package_rename(nodes: Seq<NodeView>, pool: Seq<Seq<char>>, pkg: Seq<char>)
    requires
        first_element(nodes, "manifest"@, pool) >= 0,
        first_attr(element_attrs(nodes[first_element(nodes, "manifest"@, pool)]), "package"@, pool)
            >= 0,
        text_of(
            element_attrs(nodes[first_element(nodes, "manifest"@, pool)])[first_attr(
                element_attrs(nodes[first_element(nodes, "manifest"@, pool)]),
                "package"@,
                pool,
            )],
            pool,
        ) is Some,
        names_clear_of(
            nodes,
            element_attrs(nodes[first_element(nodes, "manifest"@, pool)])[first_attr(
                element_attrs(nodes[first_element(nodes, "manifest"@, pool)]),
                "package"@,
                pool,
            )].typed_value.data as int,
        ),
        authorities_apart(nodes, pool),
        forall|i: int|
            0 <= i < nodes.len() ==> authority_slot(#[trigger] nodes[i], pool) != element_attrs(
                nodes[first_element(nodes, "manifest"@, pool)],
            )[first_attr(
                element_attrs(nodes[first_element(nodes, "manifest"@, pool)]),
                "package"@,
                pool,
            )].typed_value.data as int,
    ensures
        edit_spec(nodes, pool, None, Some(pkg)) == rename_package(nodes, pool, pkg),
        rename_package(nodes, pool, pkg) is Ok,
        ({
            let (n, p) = rename_package(nodes, pool, pkg)->Ok_0;
            let e = first_element(nodes, "manifest"@, pool);
            let k = first_attr(element_attrs(nodes[e]), "package"@, pool);
            let d = element_attrs(nodes[e])[k].typed_value.data as int;
            &&& p.len() == pool.len()
            &&& text_of(element_attrs(n[e])[k], p) == Some(pkg)
            &&& forall|i: int|
                0 <= i < nodes.len() && authority_slot(#[trigger] nodes[i], pool) >= 0
                    ==> p[authority_slot(nodes[i], pool)] == reprefixed(
                    pool[authority_slot(nodes[i], pool)],
                    pool[d],
                    pkg,
                )
            &&& forall|x: int|
                0 <= x < pool.len() && x != d && (forall|i: int|
                    0 <= i < nodes.len() ==> authority_slot(#[trigger] nodes[i], pool) != x)
                    ==> p[x] == pool[x]
        }),
{
    let man = "manifest"@;
    let e = first_element(nodes, man, pool);
    let k = first_attr(element_attrs(nodes[e]), "package"@, pool);
    let a = element_attrs(nodes[e])[k];
    let d = a.typed_value.data as int;
    lemma_set_attr_reads_new(nodes, pool, man, "package"@, pkg);
    let (n1, pool1, prior) = set_attr_spec(nodes, pool, man, "package"@, pkg)->Ok_0;
    assert(prior == Some(pool[d]));
    assert(pool1 == pool.update(d, pkg));
    assert(n1 =~= nodes) by {
        assert(element_attrs(nodes[e]).update(k, a) =~= element_attrs(nodes[e]));
    }
    assert forall|x: int| 0 <= x < pool.len() && pool1[x] != pool[x] implies names_clear_of(
        nodes,
        x,
    ) by {}
    assert forall|i: int| 0 <= i < nodes.len() implies authority_slot(#[trigger] nodes[i], pool1)
        == authority_slot(nodes[i], pool) && authority_slot(nodes[i], pool) < pool.len() by {
        lemma_authority_slot_agrees(nodes, pool, pool1, i);
    }
    assert(authorities_apart(nodes, pool1));
    lemma_fix_authorities(nodes, pool1, pool[d], pkg, nodes.len() as int);
}

} // verus!
