use crate::barcodes::CellBarcodes;
use crate::config::{GTFConfig, Input, MatchDirection, Source, Strategy};
use crate::deduplication::DeduplicationStrategy;
use crate::engine::output::Output;
use crate::engine::worker::{Engine, EngineError};
use crate::extractors::UMIExtraction;
use crate::filters::Filter;
use crate::gtf::{DuplicateError, GTFEntrys};
use crate::gtf_parse::{table_wf, FeatureEntries};
use crate::text::{
    clone_string, is_sorted_unique, sorted_unique_strings, spec_added_once, spec_texts, str_eq,
    string_from_utf8,
};
use vstd::prelude::*;
use vstd::string::*;
use vstd::utf8::*;

verus! {

/// Why a quantification cannot be set up.
#[derive(Debug, Clone, Copy, PartialEq, Eq, Structural)]
pub enum QuantifyError {
    /// The annotation has no rows of the configured feature type.
    NoEntriesForFeature,
    /// The rows have no column for the aggregation identifier.
    NoAggregationAttribute,
    /// The source of the input is not the one that was loaded.
    SourceMismatch,
    /// The name of the tag is no text.
    TagNotUtf8,
    Engine(EngineError),
}

/// What was read for the configured source of regions.
pub enum Loaded<'a> {
    /// The rows of the annotation, by feature type, duplicates handled.
    Gtf(&'a Vec<FeatureEntries>),
    /// The references of the alignment file: name, number and length.
    References(&'a Vec<(String, i32, u64)>),
    /// Nothing: the regions are named by a tag of the reads.
    Tag,
}

/// Whether the table of counts has one count per row only: where only
/// agreeing reads are asked for, or the direction is ignored.
pub fn first_column_only(only_correct: bool, direction: MatchDirection) -> (r: bool)
    ensures
        r == (only_correct || direction is Ignore),
{
    only_correct || match direction {
        MatchDirection::Ignore => true,
        _ => false,
    }
}

/// The identifier that regions are aggregated by: the aggregation
/// identifier if one is configured, else the identifier.
pub fn aggregation_attribute(gtf_config: &GTFConfig) -> (name: String)
    ensures
        name@ == match gtf_config.aggr_id_attribute {
            Some(a) => a@,
            None => gtf_config.id_attribute@,
        },
{
    match &gtf_config.aggr_id_attribute {
        Some(a) => clone_string(a),
        None => clone_string(&gtf_config.id_attribute),
    }
}

/// The attributes that are read from the annotation: the identifier, the
/// aggregation identifier and the one that duplicates are found by.
pub fn accepted_tags(gtf_config: &GTFConfig, duplication_detection_id_attribute: &str) -> (tags: Vec<
    String,
>)
    ensures
        tags@.len() == 3,
        tags@[0]@ == gtf_config.id_attribute@,
        tags@[1]@ == match gtf_config.aggr_id_attribute {
            Some(a) => a@,
            None => gtf_config.id_attribute@,
        },
        tags@[2]@ == duplication_detection_id_attribute@,
{
    let mut tags: Vec<String> = Vec::new();
    tags.push(clone_string(&gtf_config.id_attribute));
    tags.push(aggregation_attribute(gtf_config));
    tags.push(String::from_str(duplication_detection_id_attribute));
    tags
}

/// Whether the rows `after` are the rows `before` with their repeated rows
/// handled: dropped, or renamed.
pub open spec fn spec_handled(
    before: GTFEntrys,
    after: GTFEntrys,
    handling: crate::config::DuplicateHandling,
    id_attribute: Seq<char>,
) -> bool {
    match handling {
        crate::config::DuplicateHandling::Collapse => GTFEntrys::spec_collapsed(
            before,
            after,
            id_attribute,
        ),
        crate::config::DuplicateHandling::Rename => GTFEntrys::spec_renamed_rows(
            before,
            after,
            id_attribute,
        ),
    }
}

/// Handles the repeated rows of every feature type as configured. The
/// first feature type that lacks the identifier ends the work.
pub fn read_gtf(
    table: &mut Vec<FeatureEntries>,
    collapse_or_rename_duplicates: crate::config::DuplicateHandling,
    duplication_detection_id_attribute: &str,
) -> (r: Result<(), DuplicateError>)
    requires
        table_wf(old(table)@),
    ensures
        final(table)@.len() == old(table)@.len(),
        forall|i: int| 0 <= i < final(table)@.len() ==> (#[trigger] final(table)@[i]).entries.wf(),
        r is Err <==> exists|i: int|
            0 <= i < old(table)@.len() && (#[trigger] old(table)@[i]).entries.spec_vec_attribute(
                duplication_detection_id_attribute@,
            ) >= old(table)@[i].entries.vec_attributes@.len(),
        r is Ok ==> forall|i: int|
            0 <= i < old(table)@.len() ==> (#[trigger] final(table)@[i]).feature == old(table)@[i].feature && spec_handled(
                old(table)@[i].entries,
                final(table)@[i].entries,
                collapse_or_rename_duplicates,
                duplication_detection_id_attribute@,
            ),
{
    let mut i: usize = 0;
    while i < table.len()
        invariant
            0 <= i <= table.len(),
            table@.len() == old(table)@.len(),
            forall|j: int| 0 <= j < table@.len() ==> (#[trigger] table@[j]).entries.wf(),
            forall|j: int| i <= j < table@.len() ==> (#[trigger] table@[j]) == old(table)@[j],
            forall|j: int|
                0 <= j < i ==> (#[trigger] old(table)@[j]).entries.spec_vec_attribute(
                    duplication_detection_id_attribute@,
                ) < old(table)@[j].entries.vec_attributes@.len(),
            forall|j: int|
                0 <= j < i ==> (#[trigger] table@[j]).feature == old(table)@[j].feature
                    && spec_handled(
                    old(table)@[j].entries,
                    table@[j].entries,
                    collapse_or_rename_duplicates,
                    duplication_detection_id_attribute@,
                ),
        decreases table.len() - i,
    {
        assert(table@[i as int] == old(table)@[i as int]);
        let ghost staged = table@;
        let r = table[i].entries.handle_duplicates(
            collapse_or_rename_duplicates,
            duplication_detection_id_attribute,
        );
        proof {
            assert forall|j: int| 0 <= j < table@.len() implies (#[trigger] table@[j]).entries.wf() by {
                if j != i {
                    assert(table@[j] == staged[j]);
                }
            }
            assert forall|j: int| i + 1 <= j < table@.len() implies (#[trigger] table@[j]) == old(table)@[j] by {
                assert(table@[j] == staged[j]);
            }
        }
        match r {
            Err(e) => {
                return Err(e);
            },
            Ok(()) => {},
        }
        i = i + 1;
    }
    Ok(())
}

/// The place of the rows of the feature type `feature`; the number of
/// feature types if there are none.
pub open spec fn spec_feature_position(table: Seq<FeatureEntries>, feature: Seq<char>) -> int
    decreases table.len(),
{
    if table.len() == 0 {
        0
    } else if table[0].feature@ == feature {
        0
    } else {
        1 + spec_feature_position(table.drop_first(), feature)
    }
}

/// The rows of the feature type `feature`, if the table has any.
pub fn entries_of<'a>(table: &'a Vec<FeatureEntries>, feature: &str) -> (r: Option<&'a GTFEntrys>)
    ensures
        0 <= spec_feature_position(table@, feature@) <= table@.len(),
        r.is_some() <==> spec_feature_position(table@, feature@) < table@.len(),
        r.is_some() ==> *r.unwrap() == table@[spec_feature_position(table@, feature@)].entries,
{
    let mut i: usize = 0;
    assert(table@.skip(0) =~= table@);
    while i < table.len()
        invariant
            0 <= i <= table.len(),
            spec_feature_position(table@, feature@) == i + spec_feature_position(
                table@.skip(i as int),
                feature@,
            ),
        decreases table.len() - i,
    {
        proof {
            assert(table@.skip(i as int)[0] == table@[i as int]);
            assert(table@.skip(i as int).drop_first() =~= table@.skip(i as int + 1));
        }
        if str_eq(table[i].feature.as_str(), feature) {
            return Some(&table[i].entries);
        }
        i = i + 1;
    }
    None
}

/// Where the table of counts goes: `counts.tsv` in the output directory.
pub fn counts_filename(directory: &String) -> (name: String)
    ensures
        name@ == directory@ + "/counts.tsv"@,
{
    let mut name = clone_string(directory);
    name.append("/counts.tsv");
    name
}

/// Whether `out` is the empty output of a quantification: a sparse matrix
/// in `directory` where cells are told apart, else the table of counts
/// `counts.tsv` in it, with `id_attribute` as the title of its first column.
/// The rows are those of `keys` where they are known beforehand; a matrix
/// has each of them once.
pub open spec fn spec_new_output(
    directory: Seq<char>,
    has_cell_barcodes: bool,
    only_first_column: bool,
    keys: Option<Seq<Seq<char>>>,
    id_attribute: Seq<char>,
    out: Output,
) -> bool {
    &&& out.wf()
    &&& out.stats().spec_total() == 0
    &&& out.counts().len() == 0
    &&& match out {
        Output::PerRegion {
            output_filename,
            sorted_keys,
            first_column_only,
            id_attribute: title,
            ..
        } => {
            &&& !has_cell_barcodes
            &&& output_filename@ == directory + "/counts.tsv"@
            &&& first_column_only == only_first_column
            &&& title@ == id_attribute
            &&& match (sorted_keys, keys) {
                (Some(given), Some(wanted)) => spec_texts(given@) == wanted,
                (None, None) => true,
                _ => false,
            }
        },
        Output::SingleCell {
            output_prefix,
            features,
            barcodes,
            matrix_temp_dir,
            entry_count,
            ..
        } => {
            &&& has_cell_barcodes
            &&& output_prefix@ == directory
            &&& matrix_temp_dir@ == Output::spec_matrix_temp_dir(directory)
            &&& barcodes@.len() == 0
            &&& entry_count == 0
            &&& spec_texts(features@) == match keys {
                Some(wanted) => spec_added_once(Seq::empty(), wanted),
                None => Seq::empty(),
            }
        },
    }
}

/// The empty output for a quantification: a sparse matrix where cell
/// barcodes are configured, else a table of counts with `id_attribute` as
/// the title of its first column.
pub fn new_output(
    output: &crate::config::Output,
    has_cell_barcodes: bool,
    strategy: &Strategy,
    sorted_keys: Option<Vec<String>>,
    id_attribute: String,
) -> (r: Output)
    ensures
        spec_new_output(
            output.directory@,
            has_cell_barcodes,
            output.only_correct || strategy.direction is Ignore,
            match sorted_keys {
                Some(keys) => Some(spec_texts(keys@)),
                None => None,
            },
            id_attribute@,
            r,
        ),
{
    if has_cell_barcodes {
        Output::new_singlecell(clone_string(&output.directory), sorted_keys)
    } else {
        Output::new_per_region(
            counts_filename(&output.directory),
            first_column_only(output.only_correct, strategy.direction),
            sorted_keys,
            id_attribute,
        )
    }
}

/// What a quantification is set up with for the rows of one feature type:
/// the engine for the rows, and an output whose rows are the aggregation
/// identifiers, each once, in lexicographic order.
pub open spec fn spec_quantify_rows(
    entries: &GTFEntrys,
    id_attribute: Seq<char>,
    aggr_id_attribute: Seq<char>,
    filters: Vec<Filter>,
    output: crate::config::Output,
    umi_extraction: Option<UMIExtraction>,
    cell_barcode: Option<CellBarcodes>,
    dedup_strategy: DeduplicationStrategy,
    strategy: Strategy,
    r: Result<(Engine, Output), QuantifyError>,
) -> bool {
    match r {
        Ok((engine, out)) => {
            &&& Engine::spec_from_gtf(
                entries,
                id_attribute,
                aggr_id_attribute,
                filters,
                dedup_strategy,
                umi_extraction,
                cell_barcode,
                strategy,
                Ok(engine),
            )
            &&& exists|keys: Seq<String>| #[trigger]
                is_sorted_unique(
                    entries.vec_attributes@[entries.spec_vec_attribute(aggr_id_attribute)].values@,
                    keys,
                ) && spec_new_output(
                    output.directory@,
                    cell_barcode.is_some(),
                    output.only_correct || strategy.direction is Ignore,
                    Some(spec_texts(keys)),
                    aggr_id_attribute,
                    out,
                )
        },
        Err(QuantifyError::Engine(e)) => Engine::spec_from_gtf(
            entries,
            id_attribute,
            aggr_id_attribute,
            filters,
            dedup_strategy,
            umi_extraction,
            cell_barcode,
            strategy,
            Err(e),
        ),
        _ => false,
    }
}

/// What a quantification from an annotation is set up with: it fails
/// where the annotation has no rows of the configured feature type, or
/// these have no column for the aggregation identifier; else it is set up
/// for these rows.
pub open spec fn spec_quantify_gtf(
    gtf_config: GTFConfig,
    table: Seq<FeatureEntries>,
    filters: Vec<Filter>,
    output: crate::config::Output,
    umi_extraction: Option<UMIExtraction>,
    cell_barcode: Option<CellBarcodes>,
    dedup_strategy: DeduplicationStrategy,
    strategy: Strategy,
    r: Result<(Engine, Output), QuantifyError>,
) -> bool {
    let aggr = match gtf_config.aggr_id_attribute {
        Some(a) => a@,
        None => gtf_config.id_attribute@,
    };
    let at = spec_feature_position(table, gtf_config.feature@);
    if at >= table.len() {
        r == Err::<(Engine, Output), QuantifyError>(QuantifyError::NoEntriesForFeature)
    } else if table[at].entries.spec_vec_attribute(aggr) >= table[at].entries.vec_attributes@.len() {
        r == Err::<(Engine, Output), QuantifyError>(QuantifyError::NoAggregationAttribute)
    } else {
        spec_quantify_rows(
            &table[at].entries,
            gtf_config.id_attribute@,
            aggr,
            filters,
            output,
            umi_extraction,
            cell_barcode,
            dedup_strategy,
            strategy,
            r,
        )
    }
}

/// The names of the references, in order.
pub open spec fn spec_reference_names(references: Seq<(String, i32, u64)>) -> Seq<Seq<char>> {
    Seq::new(references.len(), |i: int| references[i].0@)
}

/// What a quantification per reference is set up with: the engine for the
/// references, and an output whose rows are the references in their order.
pub open spec fn spec_quantify_references(
    references: Seq<(String, i32, u64)>,
    filters: Vec<Filter>,
    output: crate::config::Output,
    umi_extraction: Option<UMIExtraction>,
    cell_barcode: Option<CellBarcodes>,
    dedup_strategy: DeduplicationStrategy,
    strategy: Strategy,
    r: Result<(Engine, Output), QuantifyError>,
) -> bool {
    match r {
        Ok((engine, out)) => {
            &&& Engine::spec_from_references(
                references,
                filters,
                dedup_strategy,
                umi_extraction,
                cell_barcode,
                strategy,
                Ok(engine),
            )
            &&& spec_new_output(
                output.directory@,
                cell_barcode.is_some(),
                output.only_correct || strategy.direction is Ignore,
                Some(spec_reference_names(references)),
                "reference"@,
                out,
            )
        },
        Err(QuantifyError::Engine(e)) => Engine::spec_from_references(
            references,
            filters,
            dedup_strategy,
            umi_extraction,
            cell_barcode,
            strategy,
            Err(e),
        ),
        _ => false,
    }
}

/// What a quantification per value of a tag is set up with: the engine for
/// the tag, and an output whose rows are not known beforehand, with the
/// tag's name as the title of the first column.
pub open spec fn spec_quantify_tag(
    tag: [u8; 2],
    filters: Vec<Filter>,
    output: crate::config::Output,
    umi_extraction: Option<UMIExtraction>,
    cell_barcode: Option<CellBarcodes>,
    dedup_strategy: DeduplicationStrategy,
    strategy: Strategy,
    r: Result<(Engine, Output), QuantifyError>,
) -> bool {
    match r {
        Ok((engine, out)) => {
            &&& Engine::spec_from_bam_tag(
                tag,
                filters,
                dedup_strategy,
                umi_extraction,
                cell_barcode,
                Ok(engine),
            )
            &&& valid_utf8(tag@)
            &&& spec_new_output(
                output.directory@,
                cell_barcode.is_some(),
                output.only_correct || strategy.direction is Ignore,
                None,
                decode_utf8(tag@),
                out,
            )
        },
        Err(QuantifyError::Engine(e)) => Engine::spec_from_bam_tag(
            tag,
            filters,
            dedup_strategy,
            umi_extraction,
            cell_barcode,
            Err(e),
        ),
        Err(QuantifyError::TagNotUtf8) => !valid_utf8(tag@) && exists|engine: Engine|
            #[trigger] Engine::spec_from_bam_tag(
                tag,
                filters,
                dedup_strategy,
                umi_extraction,
                cell_barcode,
                Ok(engine),
            ),
        _ => false,
    }
}

/// Sets up engine and output for the configured source of regions.
///
/// With an annotation the rows of the table are the aggregation
/// identifiers, each once, in lexicographic order. With references they are
/// the references in the order of the header. With a tag they are not
/// known beforehand. A source that is not the one that was loaded is
/// refused.
pub fn quantify(
    input: &Input,
    loaded: Loaded<'_>,
    filters: Vec<Filter>,
    output: &crate::config::Output,
    umi_extraction: Option<UMIExtraction>,
    cell_barcode: Option<CellBarcodes>,
    dedup_strategy: DeduplicationStrategy,
    strategy: Strategy,
) -> (r: Result<(Engine, Output), QuantifyError>)
    requires
        loaded matches Loaded::Gtf(table) ==> forall|i: int|
            0 <= i < table@.len() ==> (#[trigger] table@[i]).entries.wf(),
    ensures
        match (input.source, loaded) {
            (Source::Gtf(gtf_config), Loaded::Gtf(table)) => spec_quantify_gtf(
                gtf_config,
                table@,
                filters,
                *output,
                umi_extraction,
                cell_barcode,
                dedup_strategy,
                strategy,
                r,
            ),
            (Source::BamReferences, Loaded::References(references)) => spec_quantify_references(
                references@,
                filters,
                *output,
                umi_extraction,
                cell_barcode,
                dedup_strategy,
                strategy,
                r,
            ),
            (Source::BamTag(bam_tag), Loaded::Tag) => spec_quantify_tag(
                bam_tag.tag,
                filters,
                *output,
                umi_extraction,
                cell_barcode,
                dedup_strategy,
                strategy,
                r,
            ),
            _ => r == Err::<(Engine, Output), QuantifyError>(QuantifyError::SourceMismatch),
        },
{
    let has_cell_barcodes = cell_barcode.is_some();
    match (&input.source, loaded) {
        (Source::Gtf(gtf_config), Loaded::Gtf(table)) => {
            let aggr_id_attribute = aggregation_attribute(gtf_config);
            let entries = match entries_of(table, gtf_config.feature.as_str()) {
                Some(entries) => entries,
                None => {
                    return Err(QuantifyError::NoEntriesForFeature);
                },
            };
            let sorted_output_keys = match entries.vec_attribute(aggr_id_attribute.as_str()) {
                Some(at) => {
                    proof {
                        GTFEntrys::lemma_attribute_position(
                            entries.vec_attributes@,
                            aggr_id_attribute@,
                            at as int,
                        );
                    }
                    sorted_unique_strings(&entries.vec_attributes[at].values)
                },
                None => {
                    proof {
                        GTFEntrys::lemma_attribute_position(
                            entries.vec_attributes@,
                            aggr_id_attribute@,
                            entries.vec_attributes@.len() as int,
                        );
                    }
                    return Err(QuantifyError::NoAggregationAttribute);
                },
            };
            proof {
                GTFEntrys::lemma_attribute_found(entries.vec_attributes@, aggr_id_attribute@);
            }
            let ghost keys = sorted_output_keys@;
            let ghost column = entries.vec_attributes@[entries.spec_vec_attribute(
                aggr_id_attribute@,
            )].values@;
            let our_engine = match Engine::from_gtf(
                entries,
                gtf_config.id_attribute.as_str(),
                aggr_id_attribute.as_str(),
                filters,
                dedup_strategy,
                umi_extraction,
                cell_barcode,
                strategy,
            ) {
                Ok(engine) => engine,
                Err(e) => {
                    return Err(QuantifyError::Engine(e));
                },
            };
            let out = new_output(
                output,
                has_cell_barcodes,
                &strategy,
                Some(sorted_output_keys),
                aggr_id_attribute,
            );
            assert(is_sorted_unique(column, keys) && spec_new_output(
                output.directory@,
                cell_barcode.is_some(),
                output.only_correct || strategy.direction is Ignore,
                Some(spec_texts(keys)),
                aggr_id_attribute@,
                out,
            ));
            let r = Ok((our_engine, out));
            assert(spec_quantify_rows(
                entries,
                gtf_config.id_attribute@,
                aggr_id_attribute@,
                filters,
                *output,
                umi_extraction,
                cell_barcode,
                dedup_strategy,
                strategy,
                r,
            ));
            assert(spec_quantify_gtf(
                *gtf_config,
                table@,
                filters,
                *output,
                umi_extraction,
                cell_barcode,
                dedup_strategy,
                strategy,
                r,
            ));
            r
        },
        (Source::BamReferences, Loaded::References(references)) => {
            let mut sorted_output_keys: Vec<String> = Vec::new();
            let mut i: usize = 0;
            while i < references.len()
                invariant
                    0 <= i <= references.len(),
                    sorted_output_keys@.len() == i,
                    forall|j: int|
                        0 <= j < i ==> (#[trigger] sorted_output_keys@[j])@ == references@[j].0@,
                decreases references.len() - i,
            {
                sorted_output_keys.push(clone_string(&references[i].0));
                i = i + 1;
            }
            assert(spec_texts(sorted_output_keys@) =~= spec_reference_names(references@));
            let our_engine = match Engine::from_references(
                references,
                filters,
                dedup_strategy,
                umi_extraction,
                cell_barcode,
                strategy,
            ) {
                Ok(engine) => engine,
                Err(e) => {
                    return Err(QuantifyError::Engine(e));
                },
            };
            let out = new_output(
                output,
                has_cell_barcodes,
                &strategy,
                Some(sorted_output_keys),
                String::from_str("reference"),
            );
            let r = Ok((our_engine, out));
            assert(spec_quantify_references(
                references@,
                filters,
                *output,
                umi_extraction,
                cell_barcode,
                dedup_strategy,
                strategy,
                r,
            ));
            r
        },
        (Source::BamTag(bam_tag), Loaded::Tag) => {
            let our_engine = match Engine::from_bam_tag(
                bam_tag.tag,
                filters,
                dedup_strategy,
                umi_extraction,
                cell_barcode,
            ) {
                Ok(engine) => engine,
                Err(e) => {
                    return Err(QuantifyError::Engine(e));
                },
            };
            let mut name: Vec<u8> = Vec::new();
            name.push(bam_tag.tag[0]);
            name.push(bam_tag.tag[1]);
            assert(name@ =~= bam_tag.tag@);
            let label = match string_from_utf8(name.as_slice()) {
                Some(label) => label,
                None => {
                    assert(Engine::spec_from_bam_tag(
                        bam_tag.tag,
                        filters,
                        dedup_strategy,
                        umi_extraction,
                        cell_barcode,
                        Ok(our_engine),
                    ));
                    return Err(QuantifyError::TagNotUtf8);
                },
            };
            let out = new_output(output, has_cell_barcodes, &strategy, None, label);
            let r = Ok((our_engine, out));
            assert(spec_quantify_tag(
                bam_tag.tag,
                filters,
                *output,
                umi_extraction,
                cell_barcode,
                dedup_strategy,
                strategy,
                r,
            ));
            r
        },
        _ => Err(QuantifyError::SourceMismatch),
    }
}

} // verus!
