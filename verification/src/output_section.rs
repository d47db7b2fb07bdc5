pub mod merged_section;
pub mod output_section;
