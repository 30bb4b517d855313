//! Token stream of the structure block of a flattened device tree.

use vstd::prelude::*;
use crate::bytes::{
    align4_within, aligned4_within, be32, c_string, read_be_u32_from_slice, read_c_string,
    zero_from_is_first,
};

verus! {

/// Magic number in the first word of every flattened device tree.
pub const FDT_MAGIC: u32 = 0xd00d_feed;

/// Token that opens a node.
pub const FDT_BEGIN_NODE: u32 = 1;

/// Token that closes a node.
pub const FDT_END_NODE: u32 = 2;

/// Token that introduces a property.
pub const FDT_PROP: u32 = 3;

/// Token without meaning.
pub const FDT_NOP: u32 = 4;

/// Token that ends the structure block.
pub const FDT_END: u32 = 9;

/// Bytes that a header takes.
pub const FDT_HEADER_SIZE: usize = 40;

/// What one place of the structure block says.
pub enum FdtToken {
    /// A node opens.
    BeginNode { name: Seq<u8> },
    /// The innermost open node closes.
    EndNode,
    /// The innermost open node has a property.
    Property { name: Seq<u8>, value: Seq<u8> },
    /// Nothing.
    Nop,
}

/// The token at `cursor` and the place of the next one. Nothing where the block
/// ends or is malformed: an unknown or cut-off token, a name without terminator
/// or that is no UTF-8, a value past the end of the block.
pub open spec fn token_at(structure: Seq<u8>, strings: Seq<u8>, cursor: int) -> Option<
    (FdtToken, int),
> {
    let size = structure.len() as int;
    if cursor < 0 || cursor + 4 > size {
        None
    } else {
        let tag = be32(structure, cursor);
        if tag == FDT_BEGIN_NODE {
            match c_string(structure, cursor + 4) {
                Some(name) => Some(
                    (
                        FdtToken::BeginNode { name },
                        aligned4_within(cursor + 4 + name.len() + 1, size),
                    ),
                ),
                None => None,
            }
        } else if tag == FDT_END_NODE {
            Some((FdtToken::EndNode, cursor + 4))
        } else if tag == FDT_PROP {
            let end = cursor + 12 + be32(structure, cursor + 4);
            if cursor + 12 > size || end > size {
                None
            } else {
                match c_string(strings, be32(structure, cursor + 8) as int) {
                    Some(name) => Some(
                        (
                            FdtToken::Property { name, value: structure.subrange(cursor + 12, end) },
                            aligned4_within(end, size),
                        ),
                    ),
                    None => None,
                }
            }
        } else if tag == FDT_NOP {
            Some((FdtToken::Nop, cursor + 4))
        } else {
            None
        }
    }
}

/// Every token moves the cursor forward, and never past the block's end.
pub proof fn token_advances(structure: Seq<u8>, strings: Seq<u8>, cursor: int)
    ensures
        token_at(structure, strings, cursor) matches Some((_, next)) ==> cursor + 4 <= next
            <= structure.len(),
{
    if 0 <= cursor && cursor + 4 <= structure.len() {
        zero_from_is_first(structure, cursor + 4);
    }
}

/// One token of the structure block, as read.
pub enum Token<'a> {
    /// A node opens.
    BeginNode { name: &'a [u8] },
    /// The innermost open node closes.
    EndNode,
    /// The innermost open node has a property.
    Property { name: &'a [u8], value: &'a [u8] },
    /// Nothing.
    Nop,
}

impl<'a> View for Token<'a> {
    type V = FdtToken;

    open spec fn view(&self) -> FdtToken {
        match self {
            Token::BeginNode { name } => FdtToken::BeginNode { name: name@ },
            Token::EndNode => FdtToken::EndNode,
            Token::Property { name, value } => FdtToken::Property { name: name@, value: value@ },
            Token::Nop => FdtToken::Nop,
        }
    }
}

/// Reads the token at `cursor` and tells where the next one starts.
pub fn next_token<'a>(structure: &'a [u8], strings: &'a [u8], cursor: usize) -> (token: Option<
    (Token<'a>, usize),
>)
    ensures
        match token {
            Some((read, next)) => token_at(structure@, strings@, cursor as int) == Some(
                (read@, next as int),
            ) && cursor + 4 <= next <= structure@.len(),
            None => token_at(structure@, strings@, cursor as int) is None,
        },
{
    let tag: u32 = match read_be_u32_from_slice(structure, cursor) {
        Some(word) => word,
        None => return None,
    };
    let size = structure.len();
    proof {
        token_advances(structure@, strings@, cursor as int);
    }
    if tag == FDT_BEGIN_NODE {
        match read_c_string(structure, cursor + 4) {
            Some(name) => {
                let next = align4_within(cursor + 4 + name.len() + 1, size);
                Some((Token::BeginNode { name }, next))
            },
            None => None,
        }
    } else if tag == FDT_END_NODE {
        Some((Token::EndNode, cursor + 4))
    } else if tag == FDT_PROP {
        if size < 12 || cursor > size - 12 {
            return None;
        }
        match (
            read_be_u32_from_slice(structure, cursor + 4),
            read_be_u32_from_slice(structure, cursor + 8),
        ) {
            (Some(length), Some(name_offset)) => {
                let start = cursor + 12;
                if length as usize > size - start {
                    return None;
                }
                let end = start + length as usize;
                match read_c_string(strings, name_offset as usize) {
                    Some(name) => {
                        let value = &structure[start..end];
                        Some((Token::Property { name, value }, align4_within(end, size)))
                    },
                    None => None,
                }
            },
            _ => None,
        }
    } else if tag == FDT_NOP {
        Some((Token::Nop, cursor + 4))
    } else {
        None
    }
}

} // verus!
