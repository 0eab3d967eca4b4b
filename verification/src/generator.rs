//! The generation engine: asset catalog model, trait sampling, uniqueness
//! enforcement and the generation driver.

use vstd::prelude::*;
use sha2::Digest;
use crate::images::{Image, ImgV, img_wf, merge, merge_spec};
use crate::metadata::{Metadata, MetaV, synthesize, synthesize_spec};
use crate::utils::hex_chars_of;
use crate::utils::hex_upper;

verus! {

/// One trait of one token: the layer it belongs to and the variant drawn
/// for it.
pub struct Attribute {
    pub trait_type: String,
    pub value: String,
}

/// The mathematical value of an [`Attribute`].
#[verifier::ext_equal]
pub ghost struct AttrV {
    pub trait_type: Seq<char>,
    pub value: Seq<char>,
}

impl View for Attribute {
    type V = AttrV;

    open spec fn view(&self) -> AttrV {
        AttrV { trait_type: self.trait_type@, value: self.value@ }
    }
}

/// One concrete variant of a layer: its name and the pixel image it
/// resolves to.
pub struct Asset {
    pub value: String,
    pub image: Image,
}

/// The mathematical value of an [`Asset`].
#[verifier::ext_equal]
pub ghost struct AssetV {
    pub value: Seq<char>,
    pub image: ImgV,
}

impl View for Asset {
    type V = AssetV;

    open spec fn view(&self) -> AssetV {
        AssetV { value: self.value@, image: self.image@ }
    }
}

/// A named trait dimension together with its available asset variants, in
/// stable enumeration order. A sequence of layers is ordered by stacking
/// position: the first layer is the base image, later layers overlay it.
pub struct Layer {
    pub name: String,
    pub assets: Vec<Asset>,
}

/// The mathematical value of a [`Layer`].
#[verifier::ext_equal]
pub ghost struct LayerV {
    pub name: Seq<char>,
    pub assets: Seq<AssetV>,
}

impl View for Layer {
    type V = LayerV;

    open spec fn view(&self) -> LayerV {
        LayerV { name: self.name@, assets: self.assets@.map_values(|a: Asset| a@) }
    }
}

/// Caller-supplied constants applied uniformly to every token's metadata.
pub struct Collection {
    pub name: String,
    pub description: String,
    pub base_uri: String,
}

/// The mathematical value of a [`Collection`].
#[verifier::ext_equal]
pub ghost struct CollectionV {
    pub name: Seq<char>,
    pub description: Seq<char>,
    pub base_uri: Seq<char>,
}

impl View for Collection {
    type V = CollectionV;

    open spec fn view(&self) -> CollectionV {
        CollectionV {
            name: self.name@,
            description: self.description@,
            base_uri: self.base_uri@,
        }
    }
}

/// The views of a sequence of layers.
pub open spec fn layer_views(layers: Seq<Layer>) -> Seq<LayerV> {
    layers.map_values(|l: Layer| l@)
}

/// The combinatorial capacity of a layer configuration: the number of
/// distinct full attribute sets, i.e. the product of the per-layer variant
/// counts.
pub open spec fn capacity_of(layers: Seq<LayerV>) -> nat
    decreases layers.len(),
{
    if layers.len() == 0 {
        1
    } else {
        capacity_of(layers.drop_last()) * layers.last().assets.len()
    }
}

/// Returns file count in a directory listing, here the number of asset
/// variants available for one layer.
pub fn file_amount(layer: &Layer) -> (amount: usize)
    ensures
        amount == layer@.assets.len(),
{
    layer.assets.len()
}

proof fn lemma_capacity_zero(layers: Seq<LayerV>, k: int)
    requires
        0 <= k < layers.len(),
        layers[k].assets.len() == 0,
    ensures
        capacity_of(layers) == 0,
    decreases layers.len(),
{
    let sub = layers.drop_last();
    let n = layers.last().assets.len();
    assert(capacity_of(layers) == capacity_of(sub) * n);
    if k == layers.len() - 1 {
        assert(n == 0);
        assert(capacity_of(sub) * 0 == 0) by (nonlinear_arith);
    } else {
        lemma_capacity_zero(sub, k);
        assert(0 * n == 0) by (nonlinear_arith);
    }
}

/// Returns all possible combination amount of NFTs: the combinatorial
/// capacity of the layer configuration, saturated at `usize::MAX` where the
/// true product does not fit.
pub fn possible_nfts(layers: &Vec<Layer>) -> (amount: usize)
    ensures
        capacity_of(layer_views(layers@)) <= usize::MAX ==> amount == capacity_of(
            layer_views(layers@),
        ),
        capacity_of(layer_views(layers@)) > usize::MAX ==> amount == usize::MAX,
{
    let ghost lv = layer_views(layers@);
    let mut i: usize = 0;
    while i < layers.len()
        invariant
            i <= layers@.len(),
            lv == layer_views(layers@),
            forall|k: int| 0 <= k < i ==> #[trigger] lv[k].assets.len() > 0,
        decreases layers@.len() - i,
    {
        if layers[i].assets.len() == 0 {
            proof {
                lemma_capacity_zero(lv, i as int);
            }
            return 0;
        }
        i = i + 1;
    }
    let mut amount: usize = 1;
    let mut j: usize = 0;
    while j < layers.len()
        invariant
            j <= layers@.len(),
            lv == layer_views(layers@),
            forall|k: int| 0 <= k < lv.len() ==> #[trigger] lv[k].assets.len() > 0,
            capacity_of(lv.take(j as int)) <= usize::MAX ==> amount == capacity_of(
                lv.take(j as int),
            ),
            capacity_of(lv.take(j as int)) > usize::MAX ==> amount == usize::MAX,
        decreases layers@.len() - j,
    {
        let c = layers[j].assets.len();
        let ghost cap_j = capacity_of(lv.take(j as int));
        let ghost cap_j1 = capacity_of(lv.take(j + 1 as int));
        proof {
            assert(lv.take(j + 1 as int).drop_last() =~= lv.take(j as int));
            assert(lv.take(j + 1 as int).last() == lv[j as int]);
            assert(capacity_of(lv.take(j + 1 as int)) == capacity_of(lv.take(j as int)) * lv[
                j as int
            ].assets.len());
            assert(c == lv[j as int].assets.len());
            assert(c >= 1);
            assert(cap_j1 == cap_j * c);
        }
        match amount.checked_mul(c) {
            Some(p) => {
                proof {
                    if cap_j <= usize::MAX {
                        assert(amount == cap_j);
                        assert(p == amount * c);
                        assert(amount * c == cap_j * c) by (nonlinear_arith)
                            requires
                                amount == cap_j,
                        ;
                        assert(cap_j1 == p);
                    }
                    if cap_j > usize::MAX {
                        // amount is usize::MAX and the multiplication did not
                        // overflow, so c == 1 and the capacity stays put.
                        assert(c == 1) by (nonlinear_arith)
                            requires
                                amount == usize::MAX,
                                c >= 1,
                                p == amount * c,
                                p <= usize::MAX,
                        ;
                        assert(cap_j1 == cap_j) by (nonlinear_arith)
                            requires
                                cap_j1 == cap_j * c,
                                c == 1,
                        ;
                        assert(p == usize::MAX) by (nonlinear_arith)
                            requires
                                p == amount * c,
                                amount == usize::MAX,
                                c == 1,
                        ;
                    }
                }
                amount = p;
            },
            None => {
                proof {
                    if cap_j <= usize::MAX {
                        assert(cap_j1 > usize::MAX);
                    } else {
                        assert(cap_j1 >= cap_j) by (nonlinear_arith)
                            requires
                                cap_j1 == cap_j * c,
                                c >= 1,
                                cap_j >= 0,
                        ;
                    }
                }
                amount = usize::MAX;
            },
        }
        j = j + 1;
    }
    proof {
        assert(lv.take(layers@.len() as int) =~= lv);
    }
    amount
}

/// The views of a sequence of attributes.
pub open spec fn attr_views(attrs: Seq<Attribute>) -> Seq<AttrV> {
    attrs.map_values(|a: Attribute| a@)
}

/// The views of a sequence of images.
pub open spec fn img_views(imgs: Seq<Image>) -> Seq<ImgV> {
    imgs.map_values(|i: Image| i@)
}

/// The concatenation of the `value` fields of an attribute set, in layer
/// order, with no separator. Distinct attribute sets can concatenate to the
/// same text; the fingerprint inherits that edge case deliberately.
pub open spec fn concat_values(attrs: Seq<AttrV>) -> Seq<char>
    decreases attrs.len(),
{
    if attrs.len() == 0 {
        Seq::empty()
    } else {
        concat_values(attrs.drop_last()) + attrs.last().value
    }
}

/// The SHA-256 digest of the UTF-8 encoding of `data`. The digest depends
/// on the characters alone.
pub uninterp spec fn sha256_of(data: Seq<char>) -> Seq<u8>;

/// Relies on `sha2::Sha256`: computes the SHA-256 digest, 32 bytes, of the
/// UTF-8 encoding of `s`.
#[verifier::external_body]
fn sha256_str(s: &str) -> (r: Vec<u8>)
    ensures
        r@ == sha256_of(s@),
        r@.len() == 32,
{
    sha2::Sha256::digest(s.as_bytes()).to_vec()
}

/// The fingerprint of an attribute set: the digest of its concatenated
/// variant values.
pub open spec fn fingerprint_of(attrs: Seq<AttrV>) -> Seq<u8> {
    sha256_of(concat_values(attrs))
}

fn joined_values(attributes: &Vec<Attribute>) -> (s: String)
    ensures
        s@ == concat_values(attr_views(attributes@)),
{
    let ghost av = attr_views(attributes@);
    let mut s = String::new();
    let mut i: usize = 0;
    while i < attributes.len()
        invariant
            i <= attributes@.len(),
            av == attr_views(attributes@),
            s@ == concat_values(av.take(i as int)),
        decreases attributes@.len() - i,
    {
        s.append(attributes[i].value.as_str());
        proof {
            assert(av.take(i + 1 as int).drop_last() =~= av.take(i as int));
            assert(av.take(i + 1 as int).last() == av[i as int]);
        }
        i = i + 1;
    }
    proof {
        assert(av.take(attributes@.len() as int) =~= av);
    }
    s
}

/// Computes the fingerprint of an attribute set: the SHA-256 digest of its
/// concatenated variant values.
pub fn fingerprint(attributes: &Vec<Attribute>) -> (r: Vec<u8>)
    ensures
        r@ == fingerprint_of(attr_views(attributes@)),
        r@.len() == 32,
{
    let joined = joined_values(attributes);
    sha256_str(joined.as_str())
}

/// Returns an identifier for the given attributes: the fingerprint rendered
/// in uppercase hexadecimal.
pub fn generate_identifier(attributes: &Vec<Attribute>) -> (r: String)
    ensures
        r@ == hex_chars_of(fingerprint_of(attr_views(attributes@))),
{
    let fp = fingerprint(attributes);
    hex_upper(&fp)
}

fn bytes_eq(a: &Vec<u8>, b: &Vec<u8>) -> (r: bool)
    ensures
        r <==> a@ == b@,
{
    if a.len() != b.len() {
        return false;
    }
    let mut i: usize = 0;
    while i < a.len()
        invariant
            i <= a@.len(),
            a@.len() == b@.len(),
            forall|k: int| 0 <= k < i ==> a@[k] == b@[k],
        decreases a@.len() - i,
    {
        if a[i] != b[i] {
            return false;
        }
        i = i + 1;
    }
    proof {
        assert(a@ =~= b@);
    }
    true
}

/// The set of fingerprints accepted so far in one generation run. Rejects an
/// attribute set whose fingerprint was already accepted.
pub struct Registry {
    seen: Vec<Vec<u8>>,
}

impl View for Registry {
    type V = Seq<Seq<u8>>;

    closed spec fn view(&self) -> Seq<Seq<u8>> {
        self.seen@.map_values(|v: Vec<u8>| v@)
    }
}

impl Registry {
    /// An empty registry: no fingerprint has been accepted yet.
    pub fn new() -> (r: Registry)
        ensures
            r@ == Seq::<Seq<u8>>::empty(),
    {
        let r = Registry { seen: Vec::new() };
        proof {
            assert(r@ =~= Seq::<Seq<u8>>::empty());
        }
        r
    }

    /// Accepts an attribute set whose fingerprint is new, recording it, and
    /// rejects one whose fingerprint was accepted before. The registry
    /// changes only on acceptance.
    pub fn accept(&mut self, attributes: &Vec<Attribute>) -> (accepted: bool)
        ensures
            accepted <==> !old(self)@.contains(fingerprint_of(attr_views(attributes@))),
            accepted ==> final(self)@ == old(self)@.push(
                fingerprint_of(attr_views(attributes@)),
            ),
            !accepted ==> final(self)@ == old(self)@,
    {
        let fp = fingerprint(attributes);
        let mut i: usize = 0;
        while i < self.seen.len()
            invariant
                i <= self.seen@.len(),
                *self == *old(self),
                fp@ == fingerprint_of(attr_views(attributes@)),
                forall|k: int| 0 <= k < i ==> self@[k] != fp@,
            decreases self.seen@.len() - i,
        {
            if bytes_eq(&self.seen[i], &fp) {
                proof {
                    assert(self@[i as int] == fp@);
                    assert(old(self)@.contains(fingerprint_of(attr_views(attributes@))));
                }
                return false;
            }
            i = i + 1;
        }
        proof {
            assert(forall|k: int| 0 <= k < old(self)@.len() ==> old(self)@[k] != fp@);
            assert(!old(self)@.contains(fp@));
        }
        self.seen.push(fp);
        proof {
            assert(self@ =~= old(self)@.push(fingerprint_of(attr_views(attributes@))));
        }
        true
    }
}

/// Relies on `rand::random_range`: an index drawn uniformly below `n`.
/// Nothing is assumed about which index comes back.
#[verifier::external_body]
fn random_index(n: usize) -> (r: usize)
    requires
        n > 0,
    ensures
        r < n,
{
    rand::random_range(0..n)
}

fn clone_pixels(v: &Vec<crate::images::Rgba>) -> (r: Vec<crate::images::Rgba>)
    ensures
        r@ == v@,
{
    let mut r: Vec<crate::images::Rgba> = Vec::new();
    let mut i: usize = 0;
    while i < v.len()
        invariant
            i <= v@.len(),
            r@ == v@.take(i as int),
        decreases v@.len() - i,
    {
        r.push(v[i]);
        proof {
            assert(v@.take(i + 1 as int) =~= v@.take(i as int).push(v@[i as int]));
        }
        i = i + 1;
    }
    proof {
        assert(v@.take(v@.len() as int) =~= v@);
    }
    r
}

fn clone_image(img: &Image) -> (r: Image)
    ensures
        r@ == img@,
{
    Image { width: img.width, height: img.height, pixels: clone_pixels(&img.pixels) }
}

/// One drawn trait: the attribute names the layer, its value and image come
/// from one of the layer's assets.
pub open spec fn attr_drawn(layer: LayerV, attr: AttrV, img: ImgV) -> bool {
    attr.trait_type == layer.name && exists|j: int|
        0 <= j < layer.assets.len() && attr.value == (#[trigger] layer.assets[j]).value && img
            == layer.assets[j].image
}

/// A full draw: one attribute and one image per layer, in layer order.
pub open spec fn sampled_from(layers: Seq<LayerV>, attrs: Seq<AttrV>, imgs: Seq<ImgV>) -> bool {
    &&& attrs.len() == layers.len()
    &&& imgs.len() == layers.len()
    &&& forall|k: int|
        0 <= k < layers.len() ==> #[trigger] attr_drawn(layers[k], attrs[k], imgs[k])
}

/// Returns an NFT with full attributes: draws one asset uniformly at random
/// per layer and returns the attributes and the drawn assets' images, both
/// in layer order.
pub fn get_random_attributes(layers: &Vec<Layer>) -> (drawn: (Vec<Attribute>, Vec<Image>))
    requires
        forall|k: int| 0 <= k < layers@.len() ==> #[trigger] layers@[k]@.assets.len() > 0,
    ensures
        sampled_from(layer_views(layers@), attr_views(drawn.0@), img_views(drawn.1@)),
{
    let ghost lv = layer_views(layers@);
    let mut attributes: Vec<Attribute> = Vec::new();
    let mut images: Vec<Image> = Vec::new();
    let mut i: usize = 0;
    while i < layers.len()
        invariant
            i <= layers@.len(),
            lv == layer_views(layers@),
            forall|k: int| 0 <= k < layers@.len() ==> #[trigger] layers@[k]@.assets.len() > 0,
            attributes@.len() == i,
            images@.len() == i,
            forall|k: int|
                0 <= k < i ==> #[trigger] attr_drawn(lv[k], attributes@[k]@, images@[k]@),
        decreases layers@.len() - i,
    {
        let layer = &layers[i];
        let q = file_amount(layer);
        let j = random_index(q);
        let asset = &layer.assets[j];
        let attr = Attribute { trait_type: layer.name.clone(), value: asset.value.clone() };
        let img = clone_image(&asset.image);
        proof {
            assert(lv[i as int].assets[j as int] == layers@[i as int].assets@.map_values(
                |a: Asset| a@,
            )[j as int]);
            assert(attr_drawn(lv[i as int], attr@, img@));
        }
        attributes.push(attr);
        images.push(img);
        i = i + 1;
    }
    (attributes, images)
}

/// The errors of the generation engine.
#[derive(Clone, Copy, PartialEq, Eq, Structural, Debug)]
pub enum EngineError {
    /// The requested quantity exceeds the combinatorial capacity of the
    /// layer configuration. Raised before any token is generated.
    InsufficientAssets,
    /// Every remaining trait combination fingerprints to an
    /// already-accepted fingerprint, so the run cannot continue uniquely.
    /// Distinct combinations normally have distinct fingerprints; this can
    /// arise only through a fingerprint collision, for instance when two
    /// attribute sets concatenate to the same text.
    FingerprintsExhausted,
}

/// One generated token: its sequential id, its attribute set, its flattened
/// image and its metadata record.
pub struct Token {
    pub id: usize,
    pub attributes: Vec<Attribute>,
    pub image: Image,
    pub metadata: Metadata,
}

/// The mathematical value of a [`Token`].
#[verifier::ext_equal]
pub ghost struct TokenV {
    pub id: nat,
    pub attributes: Seq<AttrV>,
    pub image: ImgV,
    pub metadata: MetaV,
}

impl View for Token {
    type V = TokenV;

    open spec fn view(&self) -> TokenV {
        TokenV {
            id: self.id as nat,
            attributes: attr_views(self.attributes@),
            image: self.image@,
            metadata: self.metadata@,
        }
    }
}

/// Every asset image of every layer is well formed.
pub open spec fn layers_wf(layers: Seq<LayerV>) -> bool {
    forall|k: int, j: int|
        0 <= k < layers.len() && 0 <= j < layers[k].assets.len() ==> img_wf(
            (#[trigger] layers[k].assets[j]).image,
        )
}

/// The flattened image of a non-empty image stack: the first image is the
/// base canvas, the following ones are painted over it in order.
pub open spec fn merge_first_spec(imgs: Seq<ImgV>) -> ImgV {
    merge_spec(imgs[0], imgs.drop_first())
}

/// What a correctly generated token looks like: it carries the given id,
/// one attribute per layer whose trait type is that layer's name, metadata
/// synthesized from the collection, the id and exactly those attributes,
/// and the flattened image of one full draw from the layers that yields
/// exactly those attributes.
pub open spec fn token_matches(layers: Seq<LayerV>, c: CollectionV, t: TokenV, id: nat) -> bool {
    &&& t.id == id
    &&& t.attributes.len() == layers.len()
    &&& forall|k: int|
        0 <= k < layers.len() ==> (#[trigger] t.attributes[k]).trait_type == layers[k].name
    &&& t.metadata == synthesize_spec(c, id, t.attributes)
    &&& exists|imgs: Seq<ImgV>|
        #[trigger] sampled_from(layers, t.attributes, imgs) && t.image == merge_first_spec(imgs)
}

fn clone_attribute(a: &Attribute) -> (r: Attribute)
    ensures
        r@ == a@,
{
    Attribute { trait_type: a.trait_type.clone(), value: a.value.clone() }
}

fn clone_attributes(v: &Vec<Attribute>) -> (r: Vec<Attribute>)
    ensures
        attr_views(r@) == attr_views(v@),
{
    let mut r: Vec<Attribute> = Vec::new();
    let mut i: usize = 0;
    while i < v.len()
        invariant
            i <= v@.len(),
            r@.len() == i,
            forall|k: int| 0 <= k < i ==> (#[trigger] r@[k])@ == v@[k]@,
        decreases v@.len() - i,
    {
        r.push(clone_attribute(&v[i]));
        i = i + 1;
    }
    proof {
        assert(attr_views(r@) =~= attr_views(v@));
    }
    r
}

/// Generates one NFT and metadata for the given information: composites the
/// drawn images, the first as base canvas, and synthesizes the metadata
/// record for the drawn attributes.
pub fn generate_one(
    collection: &Collection,
    attributes: Vec<Attribute>,
    images: Vec<Image>,
    token_id: usize,
) -> (t: Token)
    requires
        images@.len() == attributes@.len(),
        images@.len() > 0,
        forall|k: int| 0 <= k < images@.len() ==> img_wf((#[trigger] images@[k])@),
    ensures
        t.id == token_id,
        t.attributes == attributes,
        t.image@ == merge_first_spec(img_views(images@)),
        img_wf(t.image@),
        t.metadata@ == synthesize_spec(collection@, token_id as nat, attr_views(attributes@)),
{
    let ghost iv = img_views(images@);
    let mut rest = images;
    let base = rest.remove(0);
    proof {
        assert(rest@.map_values(|i: Image| i@) =~= iv.drop_first());
        assert(base@ == iv[0]);
        assert(forall|k: int|
            0 <= k < rest@.len() ==> img_wf((#[trigger] rest@[k])@));
    }
    let image = merge(base, &rest);
    let attrs_for_meta = clone_attributes(&attributes);
    let metadata = synthesize(collection, token_id, attrs_for_meta);
    Token { id: token_id, attributes, image, metadata }
}

/// The attribute set that combination index `idx` decodes to, by
/// mixed-radix decoding: layer by layer, the index selects one asset
/// variant and is then divided by that layer's variant count.
pub open spec fn combo_values(layers: Seq<LayerV>, idx: int) -> Seq<AttrV>
    decreases layers.len(),
{
    if layers.len() == 0 {
        Seq::empty()
    } else {
        let c = layers[0].assets.len() as int;
        seq![
            AttrV { trait_type: layers[0].name, value: layers[0].assets[idx % c].value },
        ] + combo_values(layers.drop_first(), idx / c)
    }
}

/// Resolves one combination index to a full draw by mixed-radix decoding:
/// layer by layer, the index selects one asset variant and is then divided
/// by that layer's variant count.
fn index_to_draw(layers: &Vec<Layer>, index: usize) -> (drawn: (Vec<Attribute>, Vec<Image>))
    requires
        forall|k: int| 0 <= k < layers@.len() ==> #[trigger] layers@[k]@.assets.len() > 0,
    ensures
        sampled_from(layer_views(layers@), attr_views(drawn.0@), img_views(drawn.1@)),
        attr_views(drawn.0@) == combo_values(layer_views(layers@), index as int),
{
    let ghost lv = layer_views(layers@);
    let mut attributes: Vec<Attribute> = Vec::new();
    let mut images: Vec<Image> = Vec::new();
    let mut rem = index;
    let mut i: usize = 0;
    proof {
        assert(lv.skip(0) =~= lv);
        assert(attr_views(attributes@) =~= Seq::<AttrV>::empty());
        assert(attr_views(attributes@) + combo_values(lv.skip(0), rem as int) =~= combo_values(
            lv,
            index as int,
        ));
    }
    while i < layers.len()
        invariant
            i <= layers@.len(),
            lv == layer_views(layers@),
            forall|k: int| 0 <= k < layers@.len() ==> #[trigger] layers@[k]@.assets.len() > 0,
            attributes@.len() == i,
            images@.len() == i,
            forall|k: int|
                0 <= k < i ==> #[trigger] attr_drawn(lv[k], attributes@[k]@, images@[k]@),
            combo_values(lv, index as int) == attr_views(attributes@) + combo_values(
                lv.skip(i as int),
                rem as int,
            ),
        decreases layers@.len() - i,
    {
        let ghost rem0 = rem as int;
        let layer = &layers[i];
        let q = file_amount(layer);
        proof {
            assert(lv[i as int] == layers@[i as int]@);
        }
        let j = rem % q;
        rem = rem / q;
        let asset = &layer.assets[j];
        let attr = Attribute { trait_type: layer.name.clone(), value: asset.value.clone() };
        let img = clone_image(&asset.image);
        proof {
            assert(lv[i as int].assets[j as int] == layers@[i as int].assets@.map_values(
                |a: Asset| a@,
            )[j as int]);
            assert(attr_drawn(lv[i as int], attr@, img@));
            assert(lv.skip(i as int)[0] == lv[i as int]);
            assert(lv.skip(i as int).drop_first() =~= lv.skip(i + 1 as int));
            assert(combo_values(lv.skip(i as int), rem0) == seq![attr@] + combo_values(
                lv.skip(i + 1 as int),
                rem as int,
            ));
        }
        attributes.push(attr);
        images.push(img);
        proof {
            assert(attr_views(attributes@) =~= attr_views(attributes@.drop_last()) + seq![
                attr@,
            ]);
            assert(combo_values(lv, index as int) =~= attr_views(attributes@) + combo_values(
                lv.skip(i + 1 as int),
                rem as int,
            ));
        }
        i = i + 1;
    }
    proof {
        assert(lv.skip(i as int).len() == 0);
        assert(combo_values(lv.skip(i as int), rem as int) == Seq::<AttrV>::empty());
        assert(attr_views(attributes@) =~= combo_values(lv, index as int));
    }
    (attributes, images)
}

/// Draws one attribute set whose fingerprint the registry accepts: first
/// one uniform random draw, then, if that one was already taken, a scan of
/// the whole combination index space. Returns `None` only when every
/// scanned combination was rejected, which (for `bound` at least the
/// capacity) can happen only through fingerprint collisions.
fn draw_unique(layers: &Vec<Layer>, registry: &mut Registry, bound: usize) -> (r: Option<
    (Vec<Attribute>, Vec<Image>),
>)
    requires
        forall|k: int| 0 <= k < layers@.len() ==> #[trigger] layers@[k]@.assets.len() > 0,
    ensures
        r matches Some(d) ==> {
            &&& sampled_from(layer_views(layers@), attr_views(d.0@), img_views(d.1@))
            &&& !old(registry)@.contains(fingerprint_of(attr_views(d.0@)))
            &&& final(registry)@ == old(registry)@.push(fingerprint_of(attr_views(d.0@)))
        },
        r is None ==> final(registry)@ == old(registry)@,
        r is None ==> forall|t: int|
            0 <= t < bound ==> old(registry)@.contains(
                fingerprint_of(#[trigger] combo_values(layer_views(layers@), t)),
            ),
{
    let ghost lv = layer_views(layers@);
    let ghost reg0 = registry@;
    let drawn = get_random_attributes(layers);
    if registry.accept(&drawn.0) {
        return Some(drawn);
    }
    let mut idx: usize = 0;
    while idx < bound
        invariant
            lv == layer_views(layers@),
            forall|k: int| 0 <= k < layers@.len() ==> #[trigger] layers@[k]@.assets.len() > 0,
            registry@ == reg0,
            reg0 == old(registry)@,
            forall|t: int|
                0 <= t < idx ==> reg0.contains(
                    fingerprint_of(#[trigger] combo_values(lv, t)),
                ),
        decreases bound - idx,
    {
        let d = index_to_draw(layers, idx);
        if registry.accept(&d.0) {
            return Some(d);
        }
        idx = idx + 1;
    }
    None
}

/// Generates given amount of random NFT images and metadata.
///
/// Fails with [`EngineError::InsufficientAssets`], before any token is
/// generated, exactly when the requested amount exceeds the combinatorial
/// capacity of the layers. On success it returns `amount` tokens with ids
/// `1..=amount`, each a correct draw from the layers, with pairwise
/// distinct attribute-set fingerprints. Where fingerprint collisions leave
/// no acceptable combination for some token, the run stops with
/// [`EngineError::FingerprintsExhausted`].
pub fn generate_all(amount: usize, layers: &Vec<Layer>, collection: &Collection) -> (r: Result<
    Vec<Token>,
    EngineError,
>)
    requires
        layers@.len() > 0 || amount == 0,
        layers_wf(layer_views(layers@)),
    ensures
        (amount as nat > capacity_of(layer_views(layers@))) <==> r == Err::<
            Vec<Token>,
            EngineError,
        >(EngineError::InsufficientAssets),
        r == Err::<Vec<Token>, EngineError>(EngineError::FingerprintsExhausted) ==> (exists|
            seen: Seq<Seq<u8>>,
        |
            #![auto]
            seen.len() < amount && forall|idx: int|
                0 <= idx < amount ==> seen.contains(
                    fingerprint_of(combo_values(layer_views(layers@), idx)),
                )),
        r matches Ok(tokens) ==> {
            &&& tokens@.len() == amount
            &&& forall|i: int|
                0 <= i < amount ==> token_matches(
                    layer_views(layers@),
                    collection@,
                    (#[trigger] tokens@[i])@,
                    (i + 1) as nat,
                )
            &&& forall|i: int, j: int|
                0 <= i < j < amount ==> fingerprint_of(tokens@[i]@.attributes) != fingerprint_of(
                    tokens@[j]@.attributes,
                )
        },
{
    let ghost lv = layer_views(layers@);
    let cap = possible_nfts(layers);
    if amount > cap {
        proof {
            assert(amount as nat > capacity_of(lv));
        }
        return Err(EngineError::InsufficientAssets);
    }
    proof {
        assert(amount as nat <= capacity_of(lv));
    }
    if amount == 0 {
        let empty_tokens: Vec<Token> = Vec::new();
        return Ok(empty_tokens);
    }
    proof {
        assert forall|k: int| 0 <= k < layers@.len() implies #[trigger] layers@[k]@.assets.len()
            > 0 by {
            assert(lv[k] == layers@[k]@);
            if lv[k].assets.len() == 0 {
                lemma_capacity_zero(lv, k);
            }
        }
    }
    let mut registry = Registry::new();
    let mut tokens: Vec<Token> = Vec::new();
    let mut made: usize = 0;
    while made < amount
        invariant
            lv == layer_views(layers@),
            layers_wf(lv),
            lv.len() > 0,
            forall|k: int| 0 <= k < layers@.len() ==> #[trigger] layers@[k]@.assets.len() > 0,
            amount as nat <= capacity_of(lv),
            amount <= cap,
            made <= amount,
            tokens@.len() == made,
            registry@.len() == made,
            forall|i: int|
                0 <= i < made ==> #[trigger] registry@[i] == fingerprint_of(
                    tokens@[i]@.attributes,
                ),
            forall|i: int|
                0 <= i < made ==> token_matches(lv, collection@, (#[trigger] tokens@[i])@, (i
                    + 1) as nat),
            forall|i: int, j: int|
                0 <= i < j < made ==> fingerprint_of(#[trigger] tokens@[i]@.attributes)
                    != fingerprint_of(#[trigger] tokens@[j]@.attributes),
        decreases amount - made,
    {
        let ghost reg0 = registry@;
        let drawn = match draw_unique(layers, &mut registry, cap) {
            Some(d) => d,
            None => {
                proof {
                    assert(reg0.len() < amount);
                    assert forall|idx: int| 0 <= idx < amount implies reg0.contains(
                        fingerprint_of(#[trigger] combo_values(layer_views(layers@), idx)),
                    ) by {
                        assert(idx < cap);
                    }
                }
                return Err(EngineError::FingerprintsExhausted);
            },
        };
        let ghost fp = fingerprint_of(attr_views(drawn.0@));
        let ghost drawn_imgs = img_views(drawn.1@);
        proof {
            assert(sampled_from(lv, attr_views(drawn.0@), drawn_imgs));
            assert forall|k: int| 0 <= k < drawn.1@.len() implies img_wf(
                (#[trigger] drawn.1@[k])@,
            ) by {
                assert(attr_drawn(lv[k], attr_views(drawn.0@)[k], drawn_imgs[k]));
                let j = choose|j: int|
                    0 <= j < lv[k].assets.len() && attr_views(drawn.0@)[k].value == (
                    #[trigger] lv[k].assets[j]).value && drawn_imgs[k] == lv[k].assets[j].image;
                assert(img_wf(lv[k].assets[j].image));
            }
        }
        let token_id = made + 1;
        let t = generate_one(collection, drawn.0, drawn.1, token_id);
        proof {
            assert(attr_views(t.attributes@) == attr_views(drawn.0@));
            assert(fingerprint_of(t@.attributes) == fp);
            assert forall|k: int| 0 <= k < lv.len() implies (#[trigger] t@.attributes[k]).trait_type
                == lv[k].name by {
                assert(attr_drawn(lv[k], attr_views(drawn.0@)[k], drawn_imgs[k]));
            }
            assert(sampled_from(lv, t@.attributes, drawn_imgs));
            assert(t@.image == merge_first_spec(drawn_imgs));
            assert(t@.metadata == synthesize_spec(collection@, token_id as nat, t@.attributes));
            assert(token_matches(lv, collection@, t@, token_id as nat));
        }
        tokens.push(t);
        made = made + 1;
        proof {
            assert forall|i: int, j: int| 0 <= i < j < made implies fingerprint_of(
                #[trigger] tokens@[i]@.attributes,
            ) != fingerprint_of(#[trigger] tokens@[j]@.attributes) by {
                if j == made - 1 {
                    assert(reg0[i] == fingerprint_of(tokens@[i]@.attributes));
                    assert(reg0.contains(fingerprint_of(tokens@[i]@.attributes)));
                }
            }
        }
    }
    Ok(tokens)
}

/// The outcome of asking the file system to create one output directory.
#[derive(Clone, Copy, PartialEq, Eq, Structural, Debug)]
pub enum DirOutcome {
    /// The directory did not exist and was created.
    Created,
    /// The directory already existed.
    AlreadyExists,
    /// Creation failed for another reason.
    Failed,
}

/// What to do next with one output directory.
#[derive(Clone, Copy, PartialEq, Eq, Structural, Debug)]
pub enum DirAction {
    /// The directory is ready.
    Done,
    /// The directory existed before: clear it by removing it recursively,
    /// then create it again.
    ClearAndRecreate,
    /// Give up and surface the creation error.
    Fail,
}

/// If the given directory does not exist, it is simply created; if it
/// already exists, it must be cleared and recreated; any other failure is
/// surfaced. This is the decision rule; the caller performs the directory
/// operations and reports their outcome.
pub fn set_given_dir(outcome: DirOutcome) -> (action: DirAction)
    ensures
        outcome == DirOutcome::Created ==> action == DirAction::Done,
        outcome == DirOutcome::AlreadyExists ==> action == DirAction::ClearAndRecreate,
        outcome == DirOutcome::Failed ==> action == DirAction::Fail,
{
    match outcome {
        DirOutcome::Created => DirAction::Done,
        DirOutcome::AlreadyExists => DirAction::ClearAndRecreate,
        DirOutcome::Failed => DirAction::Fail,
    }
}

/// The output directories to reset before a run, in the order they must be
/// handled: the output root first, then the images and metadata
/// directories under it.
pub fn set_output_dir() -> (dirs: Vec<String>)
    ensures
        dirs@.len() == 3,
        dirs@[0]@ == "./output/"@,
        dirs@[1]@ == "./output/images/"@,
        dirs@[2]@ == "./output/metadata/"@,
{
    let mut dirs: Vec<String> = Vec::new();
    dirs.push(String::from_str("./output/"));
    dirs.push(String::from_str("./output/images/"));
    dirs.push(String::from_str("./output/metadata/"));
    dirs
}

} // verus!
