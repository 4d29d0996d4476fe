//! Grouping the elements of a document into sections, for a consumer that
//! wants the whole document as a table of sections and their properties.

use vstd::prelude::*;
use vstd::string::*;
use crate::item::{Element, Item};

verus! {

/// What a [`Group`] holds, as bytes.
pub struct GroupModel {
    /// The name of the section; `None` for the properties that stand
    /// before the first header.
    pub name: Option<Seq<u8>>,
    /// The keys and values of the section, in the order of the document.
    pub properties: Seq<(Seq<u8>, Seq<u8>)>,
}

/// A section and its properties.
#[derive(Debug)]
pub struct Group<'a> {
    /// The name of the section; `None` for the properties that stand
    /// before the first header.
    pub name: Option<&'a str>,
    /// The keys and values of the section, in the order of the document.
    pub properties: Vec<(&'a str, &'a str)>,
}

/// The model of a list of keys and values.
pub open spec fn pairs(v: Seq<(&str, &str)>) -> Seq<(Seq<u8>, Seq<u8>)> {
    v.map_values(|p: (&str, &str)| (p.0.spec_bytes(), p.1.spec_bytes()))
}

impl<'a> View for Group<'a> {
    type V = GroupModel;

    open spec fn view(&self) -> GroupModel {
        GroupModel {
            name: match self.name {
                Some(name) => Some(name.spec_bytes()),
                None => None,
            },
            properties: pairs(self.properties@),
        }
    }
}

/// The models of the groups of `v`, in order.
pub open spec fn group_models(v: Seq<Group<'_>>) -> Seq<GroupModel> {
    v.map_values(|g: Group<'_>| g@)
}

/// An element that a table of sections cannot hold: a malformed header, or
/// a key without a value.
pub open spec fn is_fault(e: Element) -> bool {
    e is Error || e matches Element::Property(_, None)
}

/// The sections of the elements `es`, none of which is a fault.
///
/// The first group has no name and holds the properties before the first
/// header; every header starts a new group; every property joins the
/// group that was started last. A document without headers is one group.
pub open spec fn grouped(es: Seq<Element>) -> Seq<GroupModel>
    decreases es.len(),
{
    if es.len() == 0 {
        seq![GroupModel { name: None, properties: Seq::empty() }]
    } else {
        let before = grouped(es.drop_last());
        match es.last() {
            Element::Section(name) => before.push(
                GroupModel { name: Some(name), properties: Seq::empty() },
            ),
            Element::Property(key, Some(value)) => before.drop_last().push(
                GroupModel {
                    properties: before.last().properties.push((key, value)),
                    ..before.last()
                },
            ),
            _ => before,
        }
    }
}

/// There is always at least the group without a name.
pub proof fn lemma_grouped_is_not_empty(es: Seq<Element>)
    ensures
        grouped(es).len() > 0,
    decreases es.len(),
{
    if es.len() > 0 {
        lemma_grouped_is_not_empty(es.drop_last());
    }
}

/// Groups the elements of a document by section.
///
/// Returns the index of the first element that is a malformed header or a
/// key without a value, if there is one; a table cannot hold either.
/// Otherwise returns the groups that [`grouped`] describes.
pub fn sections<'a>(items: &[Item<'a>]) -> (r: Result<Vec<Group<'a>>, usize>)
    ensures
        match r {
            Ok(groups) => {
                &&& forall|i: int| 0 <= i < items@.len() ==> !is_fault(#[trigger] items@[i]@)
                &&& group_models(groups@) == grouped(items@.map_values(|item: Item<'a>| item@))
            },
            Err(at) => {
                &&& at < items@.len()
                &&& is_fault(items@[at as int]@)
                &&& forall|i: int| 0 <= i < at ==> !is_fault(#[trigger] items@[i]@)
            },
        },
{
    let ghost es = items@.map_values(|item: Item<'a>| item@);
    let mut done: Vec<Group<'a>> = Vec::new();
    let mut name: Option<&'a str> = None;
    let mut properties: Vec<(&'a str, &'a str)> = Vec::new();
    proof {
        assert(es.take(0) =~= Seq::<Element>::empty());
        assert(group_models(done@) =~= Seq::<GroupModel>::empty());
        assert(pairs(properties@) =~= Seq::<(Seq<u8>, Seq<u8>)>::empty());
        assert(group_models(done@).push((Group { name, properties })@) =~= grouped(es.take(0)));
    }
    let mut i: usize = 0;
    while i < items.len()
        invariant
            i <= items@.len(),
            es == items@.map_values(|item: Item<'a>| item@),
            forall|j: int| 0 <= j < i ==> !is_fault(#[trigger] items@[j]@),
            group_models(done@).push((Group { name, properties })@) == grouped(es.take(i as int)),
        decreases items@.len() - i,
    {
        let ghost before = grouped(es.take(i as int));
        let ghost closed = group_models(done@);
        let ghost open = (Group { name, properties })@;
        proof {
            assert(es.take(i + 1).drop_last() =~= es.take(i as int));
            assert(es.take(i + 1).last() == items@[i as int]@);
            assert(before.drop_last() =~= closed);
            assert(before.last() == open);
        }
        match items[i] {
            Item::Error(_) => {
                return Err(i);
            },
            Item::Property(_, None) => {
                return Err(i);
            },
            Item::Section(header) => {
                done.push(Group { name, properties });
                name = Some(header);
                properties = Vec::new();
                proof {
                    assert(group_models(done@) =~= before);
                    assert(pairs(properties@) =~= Seq::<(Seq<u8>, Seq<u8>)>::empty());
                }
            },
            Item::Property(key, Some(value)) => {
                properties.push((key, value));
                proof {
                    assert(pairs(properties@) =~= open.properties.push(
                        (key.spec_bytes(), value.spec_bytes()),
                    ));
                }
            },
            _ => {},
        }
        i += 1;
    }
    done.push(Group { name, properties });
    proof {
        assert(es.take(i as int) =~= es);
        assert(group_models(done@) =~= grouped(es));
    }
    Ok(done)
}

} // verus!
