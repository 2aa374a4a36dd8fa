use vstd::prelude::*;

verus! {

/// Which screen the program shows next.
#[derive(Debug, Clone)]
pub enum Switch {
    Edit { name: String },
    Plan,
    List,
    Exit,
    Calendar,
}

/// A rectangle of one colour, given by its red, green and blue parts.
#[derive(Debug)]
pub struct ColorBlock {
    pub color: (u8, u8, u8),
}

impl ColorBlock {
    /// The block of the colour with the parts `r`, `g` and `b`.
    pub fn new(r: u8, g: u8, b: u8) -> (block: Self)
        ensures
            block.color == (r, g, b),
    {
        ColorBlock { color: (r, g, b) }
    }

    /// The colour as one number: red, green and blue from the high byte down.
    pub fn packed(&self) -> (packed: u32)
        ensures
            packed == self.color.0 * 65536 + self.color.1 * 256 + self.color.2,
    {
        let r: u32 = self.color.0 as u32;
        let g: u32 = self.color.1 as u32;
        let b: u32 = self.color.2 as u32;
        r * 65536 + g * 256 + b
    }
}

} // verus!
