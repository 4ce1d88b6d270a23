//! Recent-project files are XML documents. The `elementtree` crate parses
//! the bytes; the library walks the resulting tree, modelled as `XmlNode`,
//! and extracts the project paths the document records.

use vstd::prelude::*;
use crate::strutil::{replace_all, replaced, str_eq};

verus! {

/// One element of a parsed document: its tag, its attributes in document
/// order, and its child elements.
pub struct XmlNode {
    /// The element's tag name.
    pub tag: String,
    /// Attribute names and values, in document order.
    pub attrs: Vec<(String, String)>,
    /// Child elements, in document order.
    pub children: Vec<XmlNode>,
}

/// `elementtree::Element`, declared so the conversion wrapper can take it.
#[verifier::external_type_specification]
#[verifier::external_body]
pub struct ExElement(elementtree::Element);

/// The tree that parsing a well-formed document yields; parsing is a pure
/// function of the bytes, and ill-formed bytes yield nothing.
pub uninterp spec fn parsed_doc(xml: Seq<u8>) -> Option<XmlNode>;

/// Relies on `elementtree::Element`'s accessors: each element's tag name,
/// attributes and children are copied over one for one.
#[verifier::external_body]
fn element_to_node(e: &elementtree::Element) -> XmlNode {
    XmlNode {
        tag: e.tag().name().to_string(),
        attrs: e.attrs().map(|(k, v)| (k.name().to_string(), v.to_string())).collect(),
        children: e.children().map(element_to_node).collect(),
    }
}

/// Relies on `elementtree::Element::from_reader`: parsing succeeds exactly
/// on well-formed documents and depends on the bytes alone.
#[verifier::external_body]
fn parse_xml(xml: &[u8]) -> (r: Result<XmlNode, String>)
    ensures
        r matches Ok(n) ==> parsed_doc(xml@) == Some(n),
        r is Err ==> parsed_doc(xml@) is None,
{
    match elementtree::Element::from_reader(xml) {
        Ok(e) => Ok(element_to_node(&e)),
        Err(e) => Err(e.to_string()),
    }
}

/// The value of the first attribute named `name`.
pub open spec fn find_attr(attrs: Seq<(String, String)>, name: Seq<char>) -> Option<Seq<char>>
    decreases attrs.len(),
{
    if attrs.len() == 0 {
        None
    } else if attrs[0].0@ == name {
        Some(attrs[0].1@)
    } else {
        find_attr(attrs.drop_first(), name)
    }
}

/// The first child with tag `tag` whose attribute `an` has value `av`.
pub open spec fn first_tagged_attr(
    children: Seq<XmlNode>,
    tag: Seq<char>,
    an: Seq<char>,
    av: Seq<char>,
) -> Option<XmlNode>
    decreases children.len(),
{
    if children.len() == 0 {
        None
    } else if children[0].tag@ == tag && find_attr(children[0].attrs@, an) == Some(av) {
        Some(children[0])
    } else {
        first_tagged_attr(children.drop_first(), tag, an, av)
    }
}

/// The first child with tag `tag`.
pub open spec fn first_tagged(children: Seq<XmlNode>, tag: Seq<char>) -> Option<XmlNode>
    decreases children.len(),
{
    if children.len() == 0 {
        None
    } else if children[0].tag@ == tag {
        Some(children[0])
    } else {
        first_tagged(children.drop_first(), tag)
    }
}

/// The `key` attributes of the `entry` children, in order, each with
/// `$USER_HOME$` replaced by `home`.
pub open spec fn entry_keys(children: Seq<XmlNode>, home: Seq<char>) -> Seq<Seq<char>>
    decreases children.len(),
{
    if children.len() == 0 {
        Seq::empty()
    } else {
        let rest = entry_keys(children.drop_last(), home);
        let c = children.last();
        if c.tag@ == "entry"@ {
            match find_attr(c.attrs@, "key"@) {
                Some(k) => rest.push(replaced(k, "$USER_HOME$"@, home)),
                None => rest,
            }
        } else {
            rest
        }
    }
}

/// The paths a recent-projects document records: the `key` attributes of
/// the entries under the `RecentProjectsManager` component's
/// `additionalInfo` map, with `$USER_HOME$` replaced by `home`. A document
/// without that component, option or map records nothing.
pub open spec fn projects_of(root: XmlNode, home: Seq<char>) -> Seq<Seq<char>> {
    match first_tagged_attr(root.children@, "component"@, "name"@, "RecentProjectsManager"@) {
        Some(comp) => match first_tagged_attr(comp.children@, "option"@, "name"@,
            "additionalInfo"@) {
            Some(opt) => match first_tagged(opt.children@, "map"@) {
                Some(map) => entry_keys(map.children@, home),
                None => Seq::empty(),
            },
            None => Seq::empty(),
        },
        None => Seq::empty(),
    }
}

/// The value of the first attribute of `n` named `name`.
fn get_attr<'a>(n: &'a XmlNode, name: &str) -> (r: Option<&'a String>)
    ensures
        r matches Some(s) ==> find_attr(n.attrs@, name@) == Some(s@),
        r is None ==> find_attr(n.attrs@, name@) is None,
{
    let mut i: usize = 0;
    proof {
        assert(n.attrs@.skip(0) =~= n.attrs@);
    }
    while i < n.attrs.len()
        invariant
            i <= n.attrs@.len(),
            find_attr(n.attrs@, name@) == find_attr(n.attrs@.skip(i as int), name@),
        decreases n.attrs@.len() - i,
    {
        proof {
            assert(n.attrs@.skip(i as int)[0] == n.attrs@[i as int]);
            assert(n.attrs@.skip(i as int).drop_first() =~= n.attrs@.skip(i + 1));
        }
        if str_eq(n.attrs[i].0.as_str(), name) {
            return Some(&n.attrs[i].1);
        }
        i = i + 1;
    }
    proof {
        assert(n.attrs@.skip(n.attrs@.len() as int) =~= Seq::<(String, String)>::empty());
    }
    None
}

/// The first child of `children` with tag `tag` whose attribute `an` is
/// `av`.
fn find_child_by_attr<'a>(children: &'a Vec<XmlNode>, tag: &str, an: &str, av: &str) -> (r:
    Option<&'a XmlNode>)
    ensures
        r matches Some(c) ==> first_tagged_attr(children@, tag@, an@, av@) == Some(*c),
        r is None ==> first_tagged_attr(children@, tag@, an@, av@) is None,
{
    let mut i: usize = 0;
    proof {
        assert(children@.skip(0) =~= children@);
    }
    while i < children.len()
        invariant
            i <= children@.len(),
            first_tagged_attr(children@, tag@, an@, av@) == first_tagged_attr(
                children@.skip(i as int),
                tag@,
                an@,
                av@,
            ),
        decreases children@.len() - i,
    {
        proof {
            assert(children@.skip(i as int)[0] == children@[i as int]);
            assert(children@.skip(i as int).drop_first() =~= children@.skip(i + 1));
        }
        if str_eq(children[i].tag.as_str(), tag) {
            match get_attr(&children[i], an) {
                Some(v) => {
                    if str_eq(v.as_str(), av) {
                        return Some(&children[i]);
                    }
                },
                None => {},
            }
        }
        i = i + 1;
    }
    proof {
        assert(children@.skip(children@.len() as int) =~= Seq::<XmlNode>::empty());
    }
    None
}

/// The first child of `children` with tag `tag`.
fn find_child_by_tag<'a>(children: &'a Vec<XmlNode>, tag: &str) -> (r: Option<&'a XmlNode>)
    ensures
        r matches Some(c) ==> first_tagged(children@, tag@) == Some(*c),
        r is None ==> first_tagged(children@, tag@) is None,
{
    let mut i: usize = 0;
    proof {
        assert(children@.skip(0) =~= children@);
    }
    while i < children.len()
        invariant
            i <= children@.len(),
            first_tagged(children@, tag@) == first_tagged(children@.skip(i as int), tag@),
        decreases children@.len() - i,
    {
        proof {
            assert(children@.skip(i as int)[0] == children@[i as int]);
            assert(children@.skip(i as int).drop_first() =~= children@.skip(i + 1));
        }
        if str_eq(children[i].tag.as_str(), tag) {
            return Some(&children[i]);
        }
        i = i + 1;
    }
    proof {
        assert(children@.skip(children@.len() as int) =~= Seq::<XmlNode>::empty());
    }
    None
}

/// Read the paths of all recent projects that the parsed document `root`
/// records, with `$USER_HOME$` replaced by `home`.
pub fn read_recent_jetbrains_projects(root: &XmlNode, home: &str) -> (r: Vec<String>)
    ensures
        r.deep_view() == projects_of(*root, home@),
{
    match find_child_by_attr(&root.children, "component", "name", "RecentProjectsManager") {
        None => Vec::new(),
        Some(comp) => match find_child_by_attr(&comp.children, "option", "name",
            "additionalInfo") {
            None => Vec::new(),
            Some(opt) => match find_child_by_tag(&opt.children, "map") {
                None => Vec::new(),
                Some(map) => {
                    proof {
                        reveal_strlit("$USER_HOME$");
                    }
                    let mut out: Vec<String> = Vec::new();
                    let mut i: usize = 0;
                    while i < map.children.len()
                        invariant
                            i <= map.children@.len(),
                            "$USER_HOME$"@.len() > 0,
                            out.deep_view() == entry_keys(map.children@.take(i as int), home@),
                        decreases map.children@.len() - i,
                    {
                        proof {
                            assert(map.children@.take(i + 1).drop_last() =~= map.children@.take(
                                i as int,
                            ));
                            assert(map.children@.take(i + 1).last() == map.children@[i as int]);
                        }
                        let child = &map.children[i];
                        if str_eq(child.tag.as_str(), "entry") {
                            match get_attr(child, "key") {
                                Some(k) => {
                                    out.push(replace_all(k.as_str(), "$USER_HOME$", home));
                                    proof {
                                        assert(out.deep_view() =~= entry_keys(
                                            map.children@.take(i + 1),
                                            home@,
                                        ));
                                    }
                                },
                                None => {},
                            }
                        }
                        i = i + 1;
                    }
                    proof {
                        assert(map.children@.take(map.children@.len() as int) =~= map.children@);
                    }
                    out
                },
            },
        },
    }
}

/// Parse a recent-projects document and read the project paths it records,
/// with `$USER_HOME$` replaced by `home`. Fails exactly on bytes that are
/// no well-formed document.
pub fn parse_recent_projects(xml: &[u8], home: &str) -> (r: Result<Vec<String>, String>)
    ensures
        parsed_doc(xml@) matches Some(n) ==> (r matches Ok(v) && v.deep_view() == projects_of(
            n,
            home@,
        )),
        parsed_doc(xml@) is None ==> r is Err,
{
    match parse_xml(xml) {
        Ok(node) => Ok(read_recent_jetbrains_projects(&node, home)),
        Err(e) => Err(e),
    }
}

} // verus!
