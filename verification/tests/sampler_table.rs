use framegraph::sampler::AddressMode;
use framegraph::sampler::MipmapMode;
use framegraph::sampler::SamplerDesc;
use framegraph::sampler::SamplerTable;
use framegraph::sampler::TexelFilter;

#[test]
fn sampler_table_holds_every_combination_once() {
    let t = SamplerTable::new();
    assert_eq!(t.entries.len(), 8);
    let filters = [TexelFilter::Nearest, TexelFilter::Linear];
    let mipmaps = [MipmapMode::Nearest, MipmapMode::Linear];
    let addresses = [AddressMode::Repeat, AddressMode::ClampToEdge];
    let mut seen = vec![false; 8];
    for &texel_filter in &filters {
        for &mipmap_mode in &mipmaps {
            for &address_modes in &addresses {
                let desc = SamplerDesc { texel_filter, mipmap_mode, address_modes };
                let i = t.get(desc);
                assert_eq!(t.entries[i], desc);
                assert!(!seen[i], "two descriptors mapped to one sampler");
                seen[i] = true;
            }
        }
    }
    assert!(seen.iter().all(|&s| s));
}
