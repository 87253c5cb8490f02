use vstd::prelude::*;

verus! {

/// The mathematical content of an [`Item`]: its text as a sequence of
/// characters, plus the print flag for code items.
pub enum ItemModel {
    Text(Seq<char>),
    Code { source: Seq<char>, print_result: bool },
}

#[derive(Clone, Debug, PartialEq)]
pub enum ItemKind {
    /// A normal piece of text.
    Text(String),
    /// A block of code, with the flag that marks its result for printing.
    Code { source: String, print_result: bool },
}

#[derive(Clone, Debug, PartialEq)]
pub struct Item {
    pub kind: ItemKind,
}

/// The parsed document: an ordered sequence of items, each owning its text.
#[derive(Clone, Debug, PartialEq)]
pub struct Ast {
    pub items: Vec<Item>,
}

/// The parser's single failure channel.  No input currently produces it:
/// text around unmatched delimiter markers is kept as literal text.
#[derive(Clone, Debug, PartialEq)]
pub enum ParseError {
    Malformed,
}

impl View for ItemKind {
    type V = ItemModel;

    open spec fn view(&self) -> ItemModel {
        match self {
            ItemKind::Text(t) => ItemModel::Text(t@),
            ItemKind::Code { source, print_result } => ItemModel::Code {
                source: source@,
                print_result: *print_result,
            },
        }
    }
}

impl View for Item {
    type V = ItemModel;

    open spec fn view(&self) -> ItemModel {
        self.kind@
    }
}

impl View for Ast {
    type V = Seq<ItemModel>;

    open spec fn view(&self) -> Seq<ItemModel> {
        self.items@.map_values(|it: Item| it@)
    }
}

impl From<Vec<Item>> for Ast {
    fn from(items: Vec<Item>) -> (r: Ast) {
        Ast { items }
    }
}

impl vstd::std_specs::convert::FromSpecImpl<Vec<Item>> for Ast {
    open spec fn obeys_from_spec() -> bool {
        true
    }

    open spec fn from_spec(v: Vec<Item>) -> Ast {
        Ast { items: v }
    }
}

} // verus!
