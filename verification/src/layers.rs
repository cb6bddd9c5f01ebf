//! Physical layers of a graph and the masks that select them.

use vstd::prelude::*;

verus! {

/// The layer that holds a record.
#[derive(Clone, Copy, Debug, PartialEq, Eq, PartialOrd, Ord, Hash, Structural)]
pub enum Layer {
    Observed,
    Knowledge,
    Workspace,
}

impl Layer {
    pub open spec fn spec_byte(self) -> u8 {
        match self {
            Layer::Observed => 0,
            Layer::Knowledge => 1,
            Layer::Workspace => 2,
        }
    }

    /// The byte that stands for the layer.
    pub fn to_byte(self) -> (byte: u8)
        ensures
            byte == self.spec_byte(),
    {
        match self {
            Layer::Observed => 0,
            Layer::Knowledge => 1,
            Layer::Workspace => 2,
        }
    }
}

/// The layer of a byte; a byte that stands for no layer comes back as the error.
impl TryFrom<u8> for Layer {
    type Error = u8;

    fn try_from(byte: u8) -> (layer: Result<Self, u8>) {
        if byte == 0 {
            Ok(Layer::Observed)
        } else if byte == 1 {
            Ok(Layer::Knowledge)
        } else if byte == 2 {
            Ok(Layer::Workspace)
        } else {
            Err(byte)
        }
    }
}

impl vstd::std_specs::convert::TryFromSpecImpl<u8> for Layer {
    open spec fn obeys_try_from_spec() -> bool {
        true
    }

    open spec fn try_from_spec(byte: u8) -> Result<Self, u8> {
        if byte == 0 {
            Ok(Layer::Observed)
        } else if byte == 1 {
            Ok(Layer::Knowledge)
        } else if byte == 2 {
            Ok(Layer::Workspace)
        } else {
            Err(byte)
        }
    }
}

/// Query-visible physical graph layers, one bit each.
#[derive(Clone, Copy, Debug, PartialEq, Eq, Hash, Structural)]
pub struct LayerMask(pub u8);

impl LayerMask {
    /// Observed records.
    pub fn observed() -> (mask: Self)
        ensures
            mask == LayerMask(1),
    {
        LayerMask(1)
    }

    /// Knowledge records.
    pub fn knowledge() -> (mask: Self)
        ensures
            mask == LayerMask(2),
    {
        LayerMask(2)
    }

    /// Workspace records.
    pub fn workspace() -> (mask: Self)
        ensures
            mask == LayerMask(4),
    {
        LayerMask(4)
    }

    /// The default authority layers. Deliberately excludes the workspace.
    pub fn authority() -> (mask: Self)
        ensures
            mask == LayerMask(3),
    {
        LayerMask(3)
    }

    /// Every layer.
    pub fn all() -> (mask: Self)
        ensures
            mask == LayerMask(7),
    {
        LayerMask(7)
    }

    /// The bits of the mask.
    pub fn bits(self) -> (bits: u8)
        ensures
            bits == self.0,
    {
        self.0
    }

    /// The bit of the layer is set.
    pub open spec fn holds(self, layer: Layer) -> bool {
        match layer {
            Layer::Observed => self.0 % 2 == 1,
            Layer::Knowledge => self.0 / 2 % 2 == 1,
            Layer::Workspace => self.0 / 4 % 2 == 1,
        }
    }

    /// Whether the mask contains a record's single physical layer.
    pub fn contains_layer(self, layer: Layer) -> (contained: bool)
        ensures
            contained == self.holds(layer),
    {
        let bits: u8 = self.0;
        let shift: u8 = layer.to_byte();
        assert((bits & (1u8 << 0u8) != 0) == (bits % 2 == 1) && (bits & (1u8 << 1u8) != 0) == (bits
            / 2 % 2 == 1) && (bits & (1u8 << 2u8) != 0) == (bits / 4 % 2 == 1)) by (bit_vector);
        bits & (1u8 << shift) != 0
    }
}

impl Default for LayerMask {
    fn default() -> (mask: Self)
        ensures
            mask == LayerMask(3),
    {
        LayerMask::authority()
    }
}

/// The authority layers are all but the workspace; all layers are in the full mask.
pub proof fn law_authority_excludes_workspace(layer: Layer)
    ensures
        LayerMask(3).holds(layer) <==> layer != Layer::Workspace,
        LayerMask(7).holds(layer),
{
}

/// Every layer has a bit of its own: the first for what is observed, the second for Knowledge, the third
/// for the workspace. The byte of a layer counts the bits before its own.
pub proof fn law_layers_have_their_bits(layer: Layer)
    ensures
        LayerMask(1).holds(layer) <==> layer == Layer::Observed,
        LayerMask(2).holds(layer) <==> layer == Layer::Knowledge,
        LayerMask(4).holds(layer) <==> layer == Layer::Workspace,
        !LayerMask(0).holds(layer),
        Layer::Observed.spec_byte() == 0,
        Layer::Knowledge.spec_byte() == 1,
        Layer::Workspace.spec_byte() == 2,
{
}

/// Bytes and layers stand for each other.
pub proof fn law_layer_bytes(layer: Layer, byte: u8)
    ensures
        <Layer as vstd::std_specs::convert::TryFromSpec<u8>>::try_from_spec(layer.spec_byte()) == Ok::<
            Layer,
            u8,
        >(layer),
        match <Layer as vstd::std_specs::convert::TryFromSpec<u8>>::try_from_spec(byte) {
            Ok(found) => found.spec_byte() == byte,
            Err(refused) => refused == byte && byte > 2,
        },
{
}

} // verus!
