use vstd::prelude::*;

verus! {

/// Identifier of a stored vector: the 128-bit value of its UUID.
pub type VectorId = u128;

/// Name of a collection.
pub type CollectionId = String;

/// Storage representation of the components of a vector.
#[derive(Debug, Clone, Copy, PartialEq, Eq, Structural)]
pub enum VectorType {
    Float32,
    Float16,
    Int8,
}

/// Distance metric under which a collection ranks its vectors.
#[derive(Debug, Clone, Copy, PartialEq, Eq, Structural)]
pub enum DistanceMetric {
    Cosine,
    Euclidean,
    DotProduct,
    Manhattan,
}

/// A metadata value: a JSON string, or any other JSON value kept as its text.
#[derive(Debug, Clone, PartialEq, Eq)]
pub enum MetadataValue {
    Text(String),
    Json(String),
}

/// One key of a metadata map with its value.
#[derive(Debug, Clone, PartialEq, Eq)]
pub struct MetadataEntry {
    pub key: String,
    pub value: MetadataValue,
}

/// A vector with its identifier and optional metadata. `data` holds the
/// components as binary32 bit patterns.
#[derive(Debug, Clone, PartialEq, Eq)]
pub struct Vector {
    pub id: VectorId,
    pub data: Vec<u32>,
    pub metadata: Option<Vec<MetadataEntry>>,
}

/// Parameters of the proximity graph.
#[derive(Debug, Clone, Copy, PartialEq, Eq, Structural)]
pub struct IndexConfig {
    pub max_connections: usize,
    pub ef_construction: usize,
    pub ef_search: usize,
    pub max_layer: usize,
}

/// Configuration of a collection, fixed at creation.
#[derive(Debug, Clone, PartialEq, Eq)]
pub struct CollectionConfig {
    pub name: CollectionId,
    pub dimension: usize,
    pub distance_metric: DistanceMetric,
    pub vector_type: VectorType,
    pub index_config: IndexConfig,
}

/// A nearest-neighbour query.
#[derive(Debug, Clone, PartialEq, Eq)]
pub struct QueryRequest {
    pub collection: CollectionId,
    pub vector: Vec<u32>,
    pub limit: usize,
    pub ef_search: Option<usize>,
    pub filter: Option<Vec<MetadataEntry>>,
}

/// One answer to a query; `distance` is a binary32 bit pattern.
#[derive(Debug, Clone, PartialEq, Eq)]
pub struct QueryResult {
    pub id: VectorId,
    pub distance: u32,
    pub metadata: Option<Vec<MetadataEntry>>,
}

/// Several vectors bound for one collection.
#[derive(Debug, Clone, PartialEq, Eq)]
pub struct BatchInsertRequest {
    pub collection: CollectionId,
    pub vectors: Vec<Vector>,
}

/// Statistics of one collection.
#[derive(Debug, Clone, PartialEq, Eq)]
pub struct CollectionStats {
    pub name: CollectionId,
    pub vector_count: usize,
    pub dimension: usize,
    pub index_size: usize,
    pub memory_usage: usize,
}

/// Mathematical value of a `Vector`.
pub struct VectorView {
    pub id: VectorId,
    pub data: Seq<u32>,
    pub metadata: Option<Seq<MetadataEntry>>,
}

/// Mathematical value of optional metadata.
pub open spec fn metadata_view(metadata: Option<Vec<MetadataEntry>>) -> Option<Seq<MetadataEntry>> {
    match metadata {
        Some(entries) => Some(entries@),
        None => None,
    }
}

impl View for Vector {
    type V = VectorView;

    open spec fn view(&self) -> VectorView {
        VectorView { id: self.id, data: self.data@, metadata: metadata_view(self.metadata) }
    }
}

/// Views of a sequence of vectors, element by element.
pub open spec fn vectors_view(vectors: Seq<Vector>) -> Seq<VectorView> {
    vectors.map_values(|v: Vector| v@)
}

/// Mathematical value of a `CollectionConfig`.
pub struct ConfigView {
    pub name: Seq<char>,
    pub dimension: usize,
    pub distance_metric: DistanceMetric,
    pub vector_type: VectorType,
    pub index_config: IndexConfig,
}

impl View for CollectionConfig {
    type V = ConfigView;

    open spec fn view(&self) -> ConfigView {
        ConfigView {
            name: self.name@,
            dimension: self.dimension,
            distance_metric: self.distance_metric,
            vector_type: self.vector_type,
            index_config: self.index_config,
        }
    }
}

/// A copy of a configuration.
pub fn copy_config(config: &CollectionConfig) -> (copy: CollectionConfig)
    ensures
        copy@ == config@,
{
    CollectionConfig {
        name: config.name.clone(),
        dimension: config.dimension,
        distance_metric: config.distance_metric,
        vector_type: config.vector_type,
        index_config: config.index_config,
    }
}

/// Copies of the vectors, in order.
pub fn copy_vectors(vectors: &Vec<Vector>) -> (copy: Vec<Vector>)
    ensures
        vectors_view(copy@) == vectors_view(vectors@),
{
    let mut copy: Vec<Vector> = Vec::new();
    let mut i: usize = 0;
    while i < vectors.len()
        invariant
            i <= vectors@.len(),
            copy@.len() == i,
            forall|k: int| 0 <= k < i ==> (#[trigger] copy@[k])@ == vectors@[k]@,
        decreases vectors@.len() - i,
    {
        copy.push(copy_vector(&vectors[i]));
        i += 1;
    }
    assert(vectors_view(copy@) =~= vectors_view(vectors@));
    copy
}

/// A copy of the components.
pub fn copy_components(data: &Vec<u32>) -> (copy: Vec<u32>)
    ensures
        copy@ == data@,
{
    let mut copy: Vec<u32> = Vec::new();
    let mut i: usize = 0;
    while i < data.len()
        invariant
            i <= data@.len(),
            copy@ == data@.take(i as int),
        decreases data@.len() - i,
    {
        copy.push(data[i]);
        assert(data@.take(i + 1) =~= data@.take(i as int).push(data@[i as int]));
        i += 1;
    }
    assert(data@.take(data@.len() as int) =~= data@);
    copy
}

/// A copy of one metadata entry.
pub fn copy_entry(entry: &MetadataEntry) -> (copy: MetadataEntry)
    ensures
        copy == *entry,
{
    let value = match &entry.value {
        MetadataValue::Text(text) => MetadataValue::Text(text.clone()),
        MetadataValue::Json(text) => MetadataValue::Json(text.clone()),
    };
    MetadataEntry { key: entry.key.clone(), value }
}

/// A copy of optional metadata.
pub fn copy_metadata(metadata: &Option<Vec<MetadataEntry>>) -> (copy: Option<Vec<MetadataEntry>>)
    ensures
        metadata_view(copy) == metadata_view(*metadata),
{
    match metadata {
        None => None,
        Some(entries) => {
            let mut copy: Vec<MetadataEntry> = Vec::new();
            let mut i: usize = 0;
            while i < entries.len()
                invariant
                    i <= entries@.len(),
                    copy@ == entries@.take(i as int),
                decreases entries@.len() - i,
            {
                copy.push(copy_entry(&entries[i]));
                assert(entries@.take(i + 1) =~= entries@.take(i as int).push(entries@[i as int]));
                i += 1;
            }
            assert(entries@.take(entries@.len() as int) =~= entries@);
            Some(copy)
        },
    }
}

/// A copy of a vector.
pub fn copy_vector(vector: &Vector) -> (copy: Vector)
    ensures
        copy@ == vector@,
{
    Vector {
        id: vector.id,
        data: copy_components(&vector.data),
        metadata: copy_metadata(&vector.metadata),
    }
}

impl Default for IndexConfig {
    fn default() -> (config: Self)
        ensures
            config.max_connections == 16,
            config.ef_construction == 200,
            config.ef_search == 50,
            config.max_layer == 16,
    {
        IndexConfig { max_connections: 16, ef_construction: 200, ef_search: 50, max_layer: 16 }
    }
}

/// Wire code of a metric: 1 to 4 in declaration order.
pub open spec fn metric_code(metric: DistanceMetric) -> i32 {
    match metric {
        DistanceMetric::Cosine => 1,
        DistanceMetric::Euclidean => 2,
        DistanceMetric::DotProduct => 3,
        DistanceMetric::Manhattan => 4,
    }
}

/// Metric named by a wire code; unknown codes fall back to `Cosine`.
pub open spec fn metric_of_code(code: i32) -> DistanceMetric {
    if code == 2 {
        DistanceMetric::Euclidean
    } else if code == 3 {
        DistanceMetric::DotProduct
    } else if code == 4 {
        DistanceMetric::Manhattan
    } else {
        DistanceMetric::Cosine
    }
}

/// Wire code of a vector type: 1 to 3 in declaration order.
pub open spec fn vector_type_code(vector_type: VectorType) -> i32 {
    match vector_type {
        VectorType::Float32 => 1,
        VectorType::Float16 => 2,
        VectorType::Int8 => 3,
    }
}

/// Vector type named by a wire code; unknown codes fall back to `Float32`.
pub open spec fn vector_type_of_code(code: i32) -> VectorType {
    if code == 2 {
        VectorType::Float16
    } else if code == 3 {
        VectorType::Int8
    } else {
        VectorType::Float32
    }
}

impl From<DistanceMetric> for i32 {
    fn from(metric: DistanceMetric) -> (code: i32) {
        match metric {
            DistanceMetric::Cosine => 1,
            DistanceMetric::Euclidean => 2,
            DistanceMetric::DotProduct => 3,
            DistanceMetric::Manhattan => 4,
        }
    }
}

impl vstd::std_specs::convert::FromSpecImpl<DistanceMetric> for i32 {
    open spec fn obeys_from_spec() -> bool {
        true
    }

    open spec fn from_spec(metric: DistanceMetric) -> i32 {
        metric_code(metric)
    }
}

impl From<i32> for DistanceMetric {
    fn from(value: i32) -> (metric: DistanceMetric) {
        match value {
            2 => DistanceMetric::Euclidean,
            3 => DistanceMetric::DotProduct,
            4 => DistanceMetric::Manhattan,
            _ => DistanceMetric::Cosine,
        }
    }
}

impl vstd::std_specs::convert::FromSpecImpl<i32> for DistanceMetric {
    open spec fn obeys_from_spec() -> bool {
        true
    }

    open spec fn from_spec(value: i32) -> DistanceMetric {
        metric_of_code(value)
    }
}

impl From<VectorType> for i32 {
    fn from(vtype: VectorType) -> (code: i32) {
        match vtype {
            VectorType::Float32 => 1,
            VectorType::Float16 => 2,
            VectorType::Int8 => 3,
        }
    }
}

impl vstd::std_specs::convert::FromSpecImpl<VectorType> for i32 {
    open spec fn obeys_from_spec() -> bool {
        true
    }

    open spec fn from_spec(vtype: VectorType) -> i32 {
        vector_type_code(vtype)
    }
}

impl From<i32> for VectorType {
    fn from(value: i32) -> (vtype: VectorType) {
        match value {
            2 => VectorType::Float16,
            3 => VectorType::Int8,
            _ => VectorType::Float32,
        }
    }
}

impl vstd::std_specs::convert::FromSpecImpl<i32> for VectorType {
    open spec fn obeys_from_spec() -> bool {
        true
    }

    open spec fn from_spec(value: i32) -> VectorType {
        vector_type_of_code(value)
    }
}

/// Decoding a code that was made from a metric gives the metric back.
pub proof fn lemma_metric_code_roundtrip(metric: DistanceMetric)
    ensures
        metric_of_code(metric_code(metric)) == metric,
{
}

/// Decoding a code that was made from a vector type gives the type back.
pub proof fn lemma_vector_type_code_roundtrip(vector_type: VectorType)
    ensures
        vector_type_of_code(vector_type_code(vector_type)) == vector_type,
{
}

} // verus!
