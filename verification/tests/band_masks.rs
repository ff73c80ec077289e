use sudoku_gen::band_masks::{
    column_single, locked_minirows, neighbour_subbands, nonconflicting_cells_neighbour_bands,
    nonconflicting_cells_neighbour_bands_by_locked_candidates, nonconflicting_cells_same_band,
    nonconflicting_cells_same_band_by_locked_candidates, row_mask, shrink_mask,
};

fn same_band_cells() -> Vec<u32> {
    vec![
        0o770770001, 0o770770002, 0o770770004, 0o707707010, 0o707707020, 0o707707040, 0o77077100, 0o77077200, 0o77077400,
        0o770001770, 0o770002770, 0o770004770, 0o707010707, 0o707020707, 0o707040707, 0o77100077, 0o77200077, 0o77400077,
        0o1770770, 0o2770770, 0o4770770, 0o10707707, 0o20707707, 0o40707707, 0o100077077, 0o200077077, 0o400077077,
        0o770770001, 0o770770002, 0o770770004, 0o707707010, 0o707707020, 0o707707040, 0o77077100, 0o77077200, 0o77077400,
        0o770001770, 0o770002770, 0o770004770, 0o707010707, 0o707020707, 0o707040707, 0o77100077, 0o77200077, 0o77400077,
        0o1770770, 0o2770770, 0o4770770, 0o10707707, 0o20707707, 0o40707707, 0o100077077, 0o200077077, 0o400077077,
        0o770770001, 0o770770002, 0o770770004, 0o707707010, 0o707707020, 0o707707040, 0o77077100, 0o77077200, 0o77077400,
        0o770001770, 0o770002770, 0o770004770, 0o707010707, 0o707020707, 0o707040707, 0o77100077, 0o77200077, 0o77400077,
        0o1770770, 0o2770770, 0o4770770, 0o10707707, 0o20707707, 0o40707707, 0o100077077, 0o200077077, 0o400077077,
    ]
}

fn neighbour_band_cells() -> Vec<u32> {
    vec![
        0o776776776, 0o775775775, 0o773773773, 0o767767767, 0o757757757, 0o737737737, 0o677677677, 0o577577577, 0o377377377,
        0o776776776, 0o775775775, 0o773773773, 0o767767767, 0o757757757, 0o737737737, 0o677677677, 0o577577577, 0o377377377,
        0o776776776, 0o775775775, 0o773773773, 0o767767767, 0o757757757, 0o737737737, 0o677677677, 0o577577577, 0o377377377,
        0o776776776, 0o775775775, 0o773773773, 0o767767767, 0o757757757, 0o737737737, 0o677677677, 0o577577577, 0o377377377,
        0o776776776, 0o775775775, 0o773773773, 0o767767767, 0o757757757, 0o737737737, 0o677677677, 0o577577577, 0o377377377,
        0o776776776, 0o775775775, 0o773773773, 0o767767767, 0o757757757, 0o737737737, 0o677677677, 0o577577577, 0o377377377,
        0o776776776, 0o775775775, 0o773773773, 0o767767767, 0o757757757, 0o737737737, 0o677677677, 0o577577577, 0o377377377,
        0o776776776, 0o775775775, 0o773773773, 0o767767767, 0o757757757, 0o737737737, 0o677677677, 0o577577577, 0o377377377,
        0o776776776, 0o775775775, 0o773773773, 0o767767767, 0o757757757, 0o737737737, 0o677677677, 0o577577577, 0o377377377,
    ]
}

fn same_band_by_minirows() -> Vec<u32> {
    vec![
        0o0, 0o0, 0o0, 0o0, 0o0, 0o0, 0o0, 0o0,
        0o0, 0o0, 0o0, 0o0, 0o0, 0o0, 0o0, 0o0,
        0o0, 0o0, 0o0, 0o0, 0o0, 0o0, 0o0, 0o0,
        0o0, 0o0, 0o0, 0o0, 0o0, 0o0, 0o0, 0o0,
        0o0, 0o0, 0o0, 0o0, 0o0, 0o0, 0o0, 0o0,
        0o0, 0o0, 0o0, 0o0, 0o0, 0o0, 0o0, 0o0,
        0o0, 0o0, 0o0, 0o0, 0o0, 0o0, 0o0, 0o0,
        0o0, 0o0, 0o0, 0o0, 0o0, 0o0, 0o0, 0o0,
        0o0, 0o0, 0o0, 0o0, 0o0, 0o0, 0o0, 0o0,
        0o0, 0o0, 0o0, 0o0, 0o0, 0o0, 0o0, 0o0,
        0o0, 0o0, 0o0, 0o0, 0o7070700, 0o707070700, 0o7770700, 0o707770700,
        0o0, 0o0, 0o0, 0o0, 0o77070700, 0o777070700, 0o777770700, 0o777770700,
        0o0, 0o0, 0o7700070, 0o77700070, 0o0, 0o0, 0o7770070, 0o77770070,
        0o0, 0o0, 0o707700070, 0o777700070, 0o0, 0o0, 0o777770070, 0o777770070,
        0o0, 0o0, 0o7700770, 0o777700770, 0o7070770, 0o777070770, 0o7770770, 0o777770770,
        0o0, 0o0, 0o707700770, 0o777700770, 0o77070770, 0o777070770, 0o777770770, 0o777770770,
        0o0, 0o0, 0o0, 0o0, 0o0, 0o0, 0o0, 0o0,
        0o0, 0o0, 0o0, 0o0, 0o70007700, 0o70707700, 0o770007700, 0o770707700,
        0o0, 0o0, 0o0, 0o0, 0o0, 0o0, 0o0, 0o0,
        0o0, 0o0, 0o0, 0o0, 0o77007700, 0o777707700, 0o777007700, 0o777707700,
        0o0, 0o70700007, 0o0, 0o77700007, 0o0, 0o70707007, 0o0, 0o77707007,
        0o0, 0o70700707, 0o0, 0o777700707, 0o70007707, 0o70707707, 0o777007707, 0o777707707,
        0o0, 0o770700007, 0o0, 0o777700007, 0o0, 0o777707007, 0o0, 0o777707007,
        0o0, 0o770700707, 0o0, 0o777700707, 0o77007707, 0o777707707, 0o777007707, 0o777707707,
        0o0, 0o0, 0o0, 0o0, 0o0, 0o0, 0o0, 0o0,
        0o0, 0o0, 0o0, 0o0, 0o70077700, 0o70777700, 0o770777700, 0o770777700,
        0o0, 0o0, 0o0, 0o0, 0o7077700, 0o707777700, 0o7777700, 0o707777700,
        0o0, 0o0, 0o0, 0o0, 0o77077700, 0o777777700, 0o777777700, 0o777777700,
        0o0, 0o70700077, 0o7700077, 0o77700077, 0o0, 0o70777077, 0o7777077, 0o77777077,
        0o0, 0o70700777, 0o707700777, 0o777700777, 0o70077777, 0o70777777, 0o777777777, 0o777777777,
        0o0, 0o770700777, 0o7700777, 0o777700777, 0o7077777, 0o777777777, 0o7777777, 0o777777777,
        0o0, 0o770700777, 0o707700777, 0o777700777, 0o77077777, 0o777777777, 0o777777777, 0o777777777,
        0o0, 0o0, 0o0, 0o0, 0o0, 0o0, 0o0, 0o0,
        0o0, 0o0, 0o700007070, 0o700077070, 0o0, 0o0, 0o770007070, 0o770077070,
        0o0, 0o700070007, 0o0, 0o700077007, 0o0, 0o707070007, 0o0, 0o707077007,
        0o0, 0o700070077, 0o700007077, 0o700077077, 0o0, 0o777070077, 0o777007077, 0o777077077,
        0o0, 0o0, 0o0, 0o0, 0o0, 0o0, 0o0, 0o0,
        0o0, 0o0, 0o707007070, 0o777077070, 0o0, 0o0, 0o777007070, 0o777077070,
        0o0, 0o770070007, 0o0, 0o777077007, 0o0, 0o777070007, 0o0, 0o777077007,
        0o0, 0o770070077, 0o707007077, 0o777077077, 0o0, 0o777070077, 0o777007077, 0o777077077,
        0o0, 0o0, 0o0, 0o0, 0o0, 0o0, 0o0, 0o0,
        0o0, 0o0, 0o700707070, 0o700777070, 0o0, 0o0, 0o770777070, 0o770777070,
        0o0, 0o700070707, 0o0, 0o700777707, 0o7070707, 0o707070707, 0o7777707, 0o707777707,
        0o0, 0o700070777, 0o700707777, 0o700777777, 0o77070777, 0o777070777, 0o777777777, 0o777777777,
        0o0, 0o0, 0o7707070, 0o77777070, 0o0, 0o0, 0o7777070, 0o77777070,
        0o0, 0o0, 0o707707070, 0o777777070, 0o0, 0o0, 0o777777070, 0o777777070,
        0o0, 0o770070777, 0o7707777, 0o777777777, 0o7070777, 0o777070777, 0o7777777, 0o777777777,
        0o0, 0o770070777, 0o707707777, 0o777777777, 0o77070777, 0o777070777, 0o777777777, 0o777777777,
        0o0, 0o0, 0o0, 0o0, 0o0, 0o0, 0o0, 0o0,
        0o0, 0o0, 0o700007770, 0o700777770, 0o70007770, 0o70777770, 0o770007770, 0o770777770,
        0o0, 0o700770007, 0o0, 0o700777007, 0o0, 0o707777007, 0o0, 0o707777007,
        0o0, 0o700770777, 0o700007777, 0o700777777, 0o77007777, 0o777777777, 0o777007777, 0o777777777,
        0o0, 0o70770007, 0o0, 0o77777007, 0o0, 0o70777007, 0o0, 0o77777007,
        0o0, 0o70770777, 0o707007777, 0o777777777, 0o70007777, 0o70777777, 0o777007777, 0o777777777,
        0o0, 0o770770007, 0o0, 0o777777007, 0o0, 0o777777007, 0o0, 0o777777007,
        0o0, 0o770770777, 0o707007777, 0o777777777, 0o77007777, 0o777777777, 0o777007777, 0o777777777,
        0o0, 0o0, 0o0, 0o0, 0o0, 0o0, 0o0, 0o0,
        0o0, 0o0, 0o700707770, 0o700777770, 0o70077770, 0o70777770, 0o770777770, 0o770777770,
        0o0, 0o700770707, 0o0, 0o700777707, 0o7077707, 0o707777707, 0o7777707, 0o707777707,
        0o0, 0o700770777, 0o700707777, 0o700777777, 0o77077777, 0o777777777, 0o777777777, 0o777777777,
        0o0, 0o70770077, 0o7707077, 0o77777077, 0o0, 0o70777077, 0o7777077, 0o77777077,
        0o0, 0o70770777, 0o707707777, 0o777777777, 0o70077777, 0o70777777, 0o777777777, 0o777777777,
        0o0, 0o770770777, 0o7707777, 0o777777777, 0o7077777, 0o777777777, 0o7777777, 0o777777777,
        0o0, 0o770770777, 0o707707777, 0o777777777, 0o77077777, 0o777777777, 0o777777777, 0o777777777,
    ]
}

fn neighbour_bands_by_columns() -> Vec<u32> {
    vec![
        0o777777777, 0o776776776, 0o775775775, 0o777777777, 0o773773773, 0o777777777, 0o777777777, 0o777777777,
        0o767767767, 0o766766766, 0o765765765, 0o767767767, 0o763763763, 0o767767767, 0o767767767, 0o767767767,
        0o757757757, 0o756756756, 0o755755755, 0o757757757, 0o753753753, 0o757757757, 0o757757757, 0o757757757,
        0o777777777, 0o776776776, 0o775775775, 0o777777777, 0o773773773, 0o777777777, 0o777777777, 0o777777777,
        0o737737737, 0o736736736, 0o735735735, 0o737737737, 0o733733733, 0o737737737, 0o737737737, 0o737737737,
        0o777777777, 0o776776776, 0o775775775, 0o777777777, 0o773773773, 0o777777777, 0o777777777, 0o777777777,
        0o777777777, 0o776776776, 0o775775775, 0o777777777, 0o773773773, 0o777777777, 0o777777777, 0o777777777,
        0o777777777, 0o776776776, 0o775775775, 0o777777777, 0o773773773, 0o777777777, 0o777777777, 0o777777777,
        0o677677677, 0o676676676, 0o675675675, 0o677677677, 0o673673673, 0o677677677, 0o677677677, 0o677677677,
        0o667667667, 0o666666666, 0o665665665, 0o667667667, 0o663663663, 0o667667667, 0o667667667, 0o667667667,
        0o657657657, 0o656656656, 0o655655655, 0o657657657, 0o653653653, 0o657657657, 0o657657657, 0o657657657,
        0o677677677, 0o676676676, 0o675675675, 0o677677677, 0o673673673, 0o677677677, 0o677677677, 0o677677677,
        0o637637637, 0o636636636, 0o635635635, 0o637637637, 0o633633633, 0o637637637, 0o637637637, 0o637637637,
        0o677677677, 0o676676676, 0o675675675, 0o677677677, 0o673673673, 0o677677677, 0o677677677, 0o677677677,
        0o677677677, 0o676676676, 0o675675675, 0o677677677, 0o673673673, 0o677677677, 0o677677677, 0o677677677,
        0o677677677, 0o676676676, 0o675675675, 0o677677677, 0o673673673, 0o677677677, 0o677677677, 0o677677677,
        0o577577577, 0o576576576, 0o575575575, 0o577577577, 0o573573573, 0o577577577, 0o577577577, 0o577577577,
        0o567567567, 0o566566566, 0o565565565, 0o567567567, 0o563563563, 0o567567567, 0o567567567, 0o567567567,
        0o557557557, 0o556556556, 0o555555555, 0o557557557, 0o553553553, 0o557557557, 0o557557557, 0o557557557,
        0o577577577, 0o576576576, 0o575575575, 0o577577577, 0o573573573, 0o577577577, 0o577577577, 0o577577577,
        0o537537537, 0o536536536, 0o535535535, 0o537537537, 0o533533533, 0o537537537, 0o537537537, 0o537537537,
        0o577577577, 0o576576576, 0o575575575, 0o577577577, 0o573573573, 0o577577577, 0o577577577, 0o577577577,
        0o577577577, 0o576576576, 0o575575575, 0o577577577, 0o573573573, 0o577577577, 0o577577577, 0o577577577,
        0o577577577, 0o576576576, 0o575575575, 0o577577577, 0o573573573, 0o577577577, 0o577577577, 0o577577577,
        0o777777777, 0o776776776, 0o775775775, 0o777777777, 0o773773773, 0o777777777, 0o777777777, 0o777777777,
        0o767767767, 0o766766766, 0o765765765, 0o767767767, 0o763763763, 0o767767767, 0o767767767, 0o767767767,
        0o757757757, 0o756756756, 0o755755755, 0o757757757, 0o753753753, 0o757757757, 0o757757757, 0o757757757,
        0o777777777, 0o776776776, 0o775775775, 0o777777777, 0o773773773, 0o777777777, 0o777777777, 0o777777777,
        0o737737737, 0o736736736, 0o735735735, 0o737737737, 0o733733733, 0o737737737, 0o737737737, 0o737737737,
        0o777777777, 0o776776776, 0o775775775, 0o777777777, 0o773773773, 0o777777777, 0o777777777, 0o777777777,
        0o777777777, 0o776776776, 0o775775775, 0o777777777, 0o773773773, 0o777777777, 0o777777777, 0o777777777,
        0o777777777, 0o776776776, 0o775775775, 0o777777777, 0o773773773, 0o777777777, 0o777777777, 0o777777777,
        0o377377377, 0o376376376, 0o375375375, 0o377377377, 0o373373373, 0o377377377, 0o377377377, 0o377377377,
        0o367367367, 0o366366366, 0o365365365, 0o367367367, 0o363363363, 0o367367367, 0o367367367, 0o367367367,
        0o357357357, 0o356356356, 0o355355355, 0o357357357, 0o353353353, 0o357357357, 0o357357357, 0o357357357,
        0o377377377, 0o376376376, 0o375375375, 0o377377377, 0o373373373, 0o377377377, 0o377377377, 0o377377377,
        0o337337337, 0o336336336, 0o335335335, 0o337337337, 0o333333333, 0o337337337, 0o337337337, 0o337337337,
        0o377377377, 0o376376376, 0o375375375, 0o377377377, 0o373373373, 0o377377377, 0o377377377, 0o377377377,
        0o377377377, 0o376376376, 0o375375375, 0o377377377, 0o373373373, 0o377377377, 0o377377377, 0o377377377,
        0o377377377, 0o376376376, 0o375375375, 0o377377377, 0o373373373, 0o377377377, 0o377377377, 0o377377377,
        0o777777777, 0o776776776, 0o775775775, 0o777777777, 0o773773773, 0o777777777, 0o777777777, 0o777777777,
        0o767767767, 0o766766766, 0o765765765, 0o767767767, 0o763763763, 0o767767767, 0o767767767, 0o767767767,
        0o757757757, 0o756756756, 0o755755755, 0o757757757, 0o753753753, 0o757757757, 0o757757757, 0o757757757,
        0o777777777, 0o776776776, 0o775775775, 0o777777777, 0o773773773, 0o777777777, 0o777777777, 0o777777777,
        0o737737737, 0o736736736, 0o735735735, 0o737737737, 0o733733733, 0o737737737, 0o737737737, 0o737737737,
        0o777777777, 0o776776776, 0o775775775, 0o777777777, 0o773773773, 0o777777777, 0o777777777, 0o777777777,
        0o777777777, 0o776776776, 0o775775775, 0o777777777, 0o773773773, 0o777777777, 0o777777777, 0o777777777,
        0o777777777, 0o776776776, 0o775775775, 0o777777777, 0o773773773, 0o777777777, 0o777777777, 0o777777777,
        0o777777777, 0o776776776, 0o775775775, 0o777777777, 0o773773773, 0o777777777, 0o777777777, 0o777777777,
        0o767767767, 0o766766766, 0o765765765, 0o767767767, 0o763763763, 0o767767767, 0o767767767, 0o767767767,
        0o757757757, 0o756756756, 0o755755755, 0o757757757, 0o753753753, 0o757757757, 0o757757757, 0o757757757,
        0o777777777, 0o776776776, 0o775775775, 0o777777777, 0o773773773, 0o777777777, 0o777777777, 0o777777777,
        0o737737737, 0o736736736, 0o735735735, 0o737737737, 0o733733733, 0o737737737, 0o737737737, 0o737737737,
        0o777777777, 0o776776776, 0o775775775, 0o777777777, 0o773773773, 0o777777777, 0o777777777, 0o777777777,
        0o777777777, 0o776776776, 0o775775775, 0o777777777, 0o773773773, 0o777777777, 0o777777777, 0o777777777,
        0o777777777, 0o776776776, 0o775775775, 0o777777777, 0o773773773, 0o777777777, 0o777777777, 0o777777777,
        0o777777777, 0o776776776, 0o775775775, 0o777777777, 0o773773773, 0o777777777, 0o777777777, 0o777777777,
        0o767767767, 0o766766766, 0o765765765, 0o767767767, 0o763763763, 0o767767767, 0o767767767, 0o767767767,
        0o757757757, 0o756756756, 0o755755755, 0o757757757, 0o753753753, 0o757757757, 0o757757757, 0o757757757,
        0o777777777, 0o776776776, 0o775775775, 0o777777777, 0o773773773, 0o777777777, 0o777777777, 0o777777777,
        0o737737737, 0o736736736, 0o735735735, 0o737737737, 0o733733733, 0o737737737, 0o737737737, 0o737737737,
        0o777777777, 0o776776776, 0o775775775, 0o777777777, 0o773773773, 0o777777777, 0o777777777, 0o777777777,
        0o777777777, 0o776776776, 0o775775775, 0o777777777, 0o773773773, 0o777777777, 0o777777777, 0o777777777,
        0o777777777, 0o776776776, 0o775775775, 0o777777777, 0o773773773, 0o777777777, 0o777777777, 0o777777777,
    ]
}

fn locked() -> Vec<u32> {
    vec![
        0o0, 0o0, 0o0, 0o0, 0o0, 0o0, 0o0, 0o0, 0o0, 0o0, 0o0, 0o0, 0o0, 0o0, 0o0, 0o0,
        0o0, 0o0, 0o0, 0o0, 0o0, 0o0, 0o0, 0o0, 0o0, 0o0, 0o0, 0o0, 0o0, 0o0, 0o0, 0o0,
        0o0, 0o0, 0o0, 0o0, 0o0, 0o0, 0o0, 0o0, 0o0, 0o0, 0o0, 0o0, 0o0, 0o0, 0o0, 0o0,
        0o0, 0o0, 0o0, 0o0, 0o0, 0o0, 0o0, 0o0, 0o0, 0o0, 0o0, 0o0, 0o0, 0o0, 0o0, 0o0,
        0o0, 0o0, 0o0, 0o0, 0o0, 0o0, 0o0, 0o0, 0o0, 0o0, 0o0, 0o0, 0o0, 0o0, 0o0, 0o0,
        0o0, 0o0, 0o0, 0o0, 0o124, 0o124, 0o124, 0o124, 0o0, 0o0, 0o0, 0o0, 0o124, 0o124, 0o124, 0o124,
        0o0, 0o0, 0o142, 0o142, 0o0, 0o0, 0o142, 0o142, 0o0, 0o0, 0o142, 0o142, 0o0, 0o0, 0o142, 0o142,
        0o0, 0o0, 0o142, 0o142, 0o124, 0o124, 0o100, 0o100, 0o0, 0o0, 0o142, 0o142, 0o124, 0o124, 0o100, 0o100,
        0o0, 0o0, 0o0, 0o0, 0o0, 0o0, 0o0, 0o0, 0o0, 0o0, 0o0, 0o0, 0o214, 0o214, 0o214, 0o214,
        0o0, 0o0, 0o0, 0o0, 0o0, 0o0, 0o0, 0o0, 0o0, 0o0, 0o0, 0o0, 0o214, 0o214, 0o214, 0o214,
        0o0, 0o241, 0o0, 0o241, 0o0, 0o241, 0o0, 0o241, 0o0, 0o241, 0o0, 0o241, 0o214, 0o200, 0o214, 0o200,
        0o0, 0o241, 0o0, 0o241, 0o0, 0o241, 0o0, 0o241, 0o0, 0o241, 0o0, 0o241, 0o214, 0o200, 0o214, 0o200,
        0o0, 0o0, 0o0, 0o0, 0o0, 0o0, 0o0, 0o0, 0o0, 0o0, 0o0, 0o0, 0o214, 0o214, 0o214, 0o214,
        0o0, 0o0, 0o0, 0o0, 0o124, 0o124, 0o124, 0o124, 0o0, 0o0, 0o0, 0o0, 0o4, 0o4, 0o4, 0o4,
        0o0, 0o241, 0o142, 0o40, 0o0, 0o241, 0o142, 0o40, 0o0, 0o241, 0o142, 0o40, 0o214, 0o200, 0o0, 0o0,
        0o0, 0o241, 0o142, 0o40, 0o124, 0o0, 0o100, 0o0, 0o0, 0o241, 0o142, 0o40, 0o4, 0o0, 0o0, 0o0,
        0o0, 0o0, 0o0, 0o0, 0o0, 0o0, 0o0, 0o0, 0o0, 0o0, 0o412, 0o412, 0o0, 0o0, 0o412, 0o412,
        0o0, 0o421, 0o0, 0o421, 0o0, 0o421, 0o0, 0o421, 0o0, 0o421, 0o412, 0o400, 0o0, 0o421, 0o412, 0o400,
        0o0, 0o0, 0o0, 0o0, 0o0, 0o0, 0o0, 0o0, 0o0, 0o0, 0o412, 0o412, 0o0, 0o0, 0o412, 0o412,
        0o0, 0o421, 0o0, 0o421, 0o0, 0o421, 0o0, 0o421, 0o0, 0o421, 0o412, 0o400, 0o0, 0o421, 0o412, 0o400,
        0o0, 0o0, 0o0, 0o0, 0o0, 0o0, 0o0, 0o0, 0o0, 0o0, 0o412, 0o412, 0o0, 0o0, 0o412, 0o412,
        0o0, 0o421, 0o0, 0o421, 0o124, 0o20, 0o124, 0o20, 0o0, 0o421, 0o412, 0o400, 0o124, 0o20, 0o0, 0o0,
        0o0, 0o0, 0o142, 0o142, 0o0, 0o0, 0o142, 0o142, 0o0, 0o0, 0o2, 0o2, 0o0, 0o0, 0o2, 0o2,
        0o0, 0o421, 0o142, 0o0, 0o124, 0o20, 0o100, 0o0, 0o0, 0o421, 0o2, 0o0, 0o124, 0o20, 0o0, 0o0,
        0o0, 0o0, 0o0, 0o0, 0o0, 0o0, 0o0, 0o0, 0o0, 0o0, 0o412, 0o412, 0o214, 0o214, 0o10, 0o10,
        0o0, 0o421, 0o0, 0o421, 0o0, 0o421, 0o0, 0o421, 0o0, 0o421, 0o412, 0o400, 0o214, 0o0, 0o10, 0o0,
        0o0, 0o241, 0o0, 0o241, 0o0, 0o241, 0o0, 0o241, 0o0, 0o241, 0o412, 0o0, 0o214, 0o200, 0o10, 0o0,
        0o0, 0o1, 0o0, 0o1, 0o0, 0o1, 0o0, 0o1, 0o0, 0o1, 0o412, 0o0, 0o214, 0o0, 0o10, 0o0,
        0o0, 0o0, 0o0, 0o0, 0o0, 0o0, 0o0, 0o0, 0o0, 0o0, 0o412, 0o412, 0o214, 0o214, 0o10, 0o10,
        0o0, 0o421, 0o0, 0o421, 0o124, 0o20, 0o124, 0o20, 0o0, 0o421, 0o412, 0o400, 0o4, 0o0, 0o0, 0o0,
        0o0, 0o241, 0o142, 0o40, 0o0, 0o241, 0o142, 0o40, 0o0, 0o241, 0o2, 0o0, 0o214, 0o200, 0o0, 0o0,
        0o0, 0o1, 0o142, 0o0, 0o124, 0o0, 0o100, 0o0, 0o0, 0o1, 0o2, 0o0, 0o4, 0o0, 0o0, 0o0,
    ]
}

fn single_columns() -> Vec<u32> {
    vec![
        0o0, 0o0, 0o0, 0o0, 0o0, 0o0, 0o0, 0o0, 0o0, 0o0, 0o0, 0o0, 0o0, 0o0, 0o0, 0o0,
        0o0, 0o0, 0o0, 0o0, 0o0, 0o0, 0o0, 0o0, 0o0, 0o0, 0o0, 0o0, 0o0, 0o0, 0o0, 0o0,
        0o0, 0o0, 0o0, 0o0, 0o0, 0o0, 0o0, 0o0, 0o0, 0o0, 0o0, 0o0, 0o0, 0o0, 0o0, 0o0,
        0o0, 0o0, 0o0, 0o0, 0o0, 0o0, 0o0, 0o0, 0o0, 0o0, 0o0, 0o0, 0o0, 0o0, 0o0, 0o0,
        0o0, 0o0, 0o0, 0o0, 0o0, 0o0, 0o0, 0o0, 0o0, 0o777, 0o777, 0o666, 0o777, 0o666, 0o666, 0o666,
        0o0, 0o777, 0o777, 0o666, 0o777, 0o666, 0o666, 0o666, 0o0, 0o555, 0o555, 0o444, 0o555, 0o444, 0o444, 0o444,
        0o0, 0o777, 0o777, 0o666, 0o777, 0o666, 0o666, 0o666, 0o0, 0o555, 0o555, 0o444, 0o555, 0o444, 0o444, 0o444,
        0o0, 0o555, 0o555, 0o444, 0o555, 0o444, 0o444, 0o444, 0o0, 0o555, 0o555, 0o444, 0o555, 0o444, 0o444, 0o444,
        0o0, 0o0, 0o0, 0o0, 0o0, 0o0, 0o0, 0o0, 0o0, 0o777, 0o777, 0o666, 0o777, 0o666, 0o666, 0o666,
        0o0, 0o777, 0o777, 0o666, 0o777, 0o666, 0o666, 0o666, 0o0, 0o555, 0o555, 0o444, 0o555, 0o444, 0o444, 0o444,
        0o0, 0o777, 0o777, 0o666, 0o777, 0o666, 0o666, 0o666, 0o0, 0o555, 0o555, 0o444, 0o555, 0o444, 0o444, 0o444,
        0o0, 0o555, 0o555, 0o444, 0o555, 0o444, 0o444, 0o444, 0o0, 0o555, 0o555, 0o444, 0o555, 0o444, 0o444, 0o444,
        0o0, 0o0, 0o0, 0o0, 0o0, 0o0, 0o0, 0o0, 0o0, 0o333, 0o333, 0o222, 0o333, 0o222, 0o222, 0o222,
        0o0, 0o333, 0o333, 0o222, 0o333, 0o222, 0o222, 0o222, 0o0, 0o111, 0o111, 0o0, 0o111, 0o0, 0o0, 0o0,
        0o0, 0o333, 0o333, 0o222, 0o333, 0o222, 0o222, 0o222, 0o0, 0o111, 0o111, 0o0, 0o111, 0o0, 0o0, 0o0,
        0o0, 0o111, 0o111, 0o0, 0o111, 0o0, 0o0, 0o0, 0o0, 0o111, 0o111, 0o0, 0o111, 0o0, 0o0, 0o0,
        0o0, 0o0, 0o0, 0o0, 0o0, 0o0, 0o0, 0o0, 0o0, 0o777, 0o777, 0o666, 0o777, 0o666, 0o666, 0o666,
        0o0, 0o777, 0o777, 0o666, 0o777, 0o666, 0o666, 0o666, 0o0, 0o555, 0o555, 0o444, 0o555, 0o444, 0o444, 0o444,
        0o0, 0o777, 0o777, 0o666, 0o777, 0o666, 0o666, 0o666, 0o0, 0o555, 0o555, 0o444, 0o555, 0o444, 0o444, 0o444,
        0o0, 0o555, 0o555, 0o444, 0o555, 0o444, 0o444, 0o444, 0o0, 0o555, 0o555, 0o444, 0o555, 0o444, 0o444, 0o444,
        0o0, 0o0, 0o0, 0o0, 0o0, 0o0, 0o0, 0o0, 0o0, 0o333, 0o333, 0o222, 0o333, 0o222, 0o222, 0o222,
        0o0, 0o333, 0o333, 0o222, 0o333, 0o222, 0o222, 0o222, 0o0, 0o111, 0o111, 0o0, 0o111, 0o0, 0o0, 0o0,
        0o0, 0o333, 0o333, 0o222, 0o333, 0o222, 0o222, 0o222, 0o0, 0o111, 0o111, 0o0, 0o111, 0o0, 0o0, 0o0,
        0o0, 0o111, 0o111, 0o0, 0o111, 0o0, 0o0, 0o0, 0o0, 0o111, 0o111, 0o0, 0o111, 0o0, 0o0, 0o0,
        0o0, 0o0, 0o0, 0o0, 0o0, 0o0, 0o0, 0o0, 0o0, 0o333, 0o333, 0o222, 0o333, 0o222, 0o222, 0o222,
        0o0, 0o333, 0o333, 0o222, 0o333, 0o222, 0o222, 0o222, 0o0, 0o111, 0o111, 0o0, 0o111, 0o0, 0o0, 0o0,
        0o0, 0o333, 0o333, 0o222, 0o333, 0o222, 0o222, 0o222, 0o0, 0o111, 0o111, 0o0, 0o111, 0o0, 0o0, 0o0,
        0o0, 0o111, 0o111, 0o0, 0o111, 0o0, 0o0, 0o0, 0o0, 0o111, 0o111, 0o0, 0o111, 0o0, 0o0, 0o0,
        0o0, 0o0, 0o0, 0o0, 0o0, 0o0, 0o0, 0o0, 0o0, 0o333, 0o333, 0o222, 0o333, 0o222, 0o222, 0o222,
        0o0, 0o333, 0o333, 0o222, 0o333, 0o222, 0o222, 0o222, 0o0, 0o111, 0o111, 0o0, 0o111, 0o0, 0o0, 0o0,
        0o0, 0o333, 0o333, 0o222, 0o333, 0o222, 0o222, 0o222, 0o0, 0o111, 0o111, 0o0, 0o111, 0o0, 0o0, 0o0,
        0o0, 0o111, 0o111, 0o0, 0o111, 0o0, 0o0, 0o0, 0o0, 0o111, 0o111, 0o0, 0o111, 0o0, 0o0, 0o0,
    ]
}

fn shrunk() -> Vec<u32> {
    vec![
        0, 1, 1, 1, 1, 1, 1, 1, 2, 3, 3, 3, 3, 3, 3, 3, 2, 3, 3, 3, 3, 3, 3, 3, 2, 3, 3, 3, 3, 3, 3, 3,
        2, 3, 3, 3, 3, 3, 3, 3, 2, 3, 3, 3, 3, 3, 3, 3, 2, 3, 3, 3, 3, 3, 3, 3, 2, 3, 3, 3, 3, 3, 3, 3,
        4, 5, 5, 5, 5, 5, 5, 5, 6, 7, 7, 7, 7, 7, 7, 7, 6, 7, 7, 7, 7, 7, 7, 7, 6, 7, 7, 7, 7, 7, 7, 7,
        6, 7, 7, 7, 7, 7, 7, 7, 6, 7, 7, 7, 7, 7, 7, 7, 6, 7, 7, 7, 7, 7, 7, 7, 6, 7, 7, 7, 7, 7, 7, 7,
        4, 5, 5, 5, 5, 5, 5, 5, 6, 7, 7, 7, 7, 7, 7, 7, 6, 7, 7, 7, 7, 7, 7, 7, 6, 7, 7, 7, 7, 7, 7, 7,
        6, 7, 7, 7, 7, 7, 7, 7, 6, 7, 7, 7, 7, 7, 7, 7, 6, 7, 7, 7, 7, 7, 7, 7, 6, 7, 7, 7, 7, 7, 7, 7,
        4, 5, 5, 5, 5, 5, 5, 5, 6, 7, 7, 7, 7, 7, 7, 7, 6, 7, 7, 7, 7, 7, 7, 7, 6, 7, 7, 7, 7, 7, 7, 7,
        6, 7, 7, 7, 7, 7, 7, 7, 6, 7, 7, 7, 7, 7, 7, 7, 6, 7, 7, 7, 7, 7, 7, 7, 6, 7, 7, 7, 7, 7, 7, 7,
        4, 5, 5, 5, 5, 5, 5, 5, 6, 7, 7, 7, 7, 7, 7, 7, 6, 7, 7, 7, 7, 7, 7, 7, 6, 7, 7, 7, 7, 7, 7, 7,
        6, 7, 7, 7, 7, 7, 7, 7, 6, 7, 7, 7, 7, 7, 7, 7, 6, 7, 7, 7, 7, 7, 7, 7, 6, 7, 7, 7, 7, 7, 7, 7,
        4, 5, 5, 5, 5, 5, 5, 5, 6, 7, 7, 7, 7, 7, 7, 7, 6, 7, 7, 7, 7, 7, 7, 7, 6, 7, 7, 7, 7, 7, 7, 7,
        6, 7, 7, 7, 7, 7, 7, 7, 6, 7, 7, 7, 7, 7, 7, 7, 6, 7, 7, 7, 7, 7, 7, 7, 6, 7, 7, 7, 7, 7, 7, 7,
        4, 5, 5, 5, 5, 5, 5, 5, 6, 7, 7, 7, 7, 7, 7, 7, 6, 7, 7, 7, 7, 7, 7, 7, 6, 7, 7, 7, 7, 7, 7, 7,
        6, 7, 7, 7, 7, 7, 7, 7, 6, 7, 7, 7, 7, 7, 7, 7, 6, 7, 7, 7, 7, 7, 7, 7, 6, 7, 7, 7, 7, 7, 7, 7,
        4, 5, 5, 5, 5, 5, 5, 5, 6, 7, 7, 7, 7, 7, 7, 7, 6, 7, 7, 7, 7, 7, 7, 7, 6, 7, 7, 7, 7, 7, 7, 7,
        6, 7, 7, 7, 7, 7, 7, 7, 6, 7, 7, 7, 7, 7, 7, 7, 6, 7, 7, 7, 7, 7, 7, 7, 6, 7, 7, 7, 7, 7, 7, 7,
    ]
}

#[test]
fn same_band_mask_of_each_cell() {
    let expected = same_band_cells();
    for cell in 0..81usize {
        assert_eq!(nonconflicting_cells_same_band(cell), expected[cell], "cell {}", cell);
    }
}

#[test]
fn neighbour_band_mask_of_each_cell() {
    let expected = neighbour_band_cells();
    for cell in 0..81usize {
        assert_eq!(nonconflicting_cells_neighbour_bands(cell), expected[cell], "cell {}", cell);
    }
}

#[test]
fn open_cells_for_each_set_of_minirows() {
    let expected = same_band_by_minirows();
    for shrink in 0..512u32 {
        assert_eq!(
            nonconflicting_cells_same_band_by_locked_candidates(shrink),
            expected[shrink as usize],
            "minirows {:o}",
            shrink
        );
    }
}

#[test]
fn open_neighbour_cells_for_each_set_of_columns() {
    let expected = neighbour_bands_by_columns();
    for columns in 0..512u32 {
        assert_eq!(
            nonconflicting_cells_neighbour_bands_by_locked_candidates(columns),
            expected[columns as usize],
            "columns {:o}",
            columns
        );
    }
}

#[test]
fn locked_minirows_for_each_set_of_minirows() {
    let expected = locked();
    for shrink in 0..512u32 {
        assert_eq!(locked_minirows(shrink), expected[shrink as usize], "minirows {:o}", shrink);
    }
}

#[test]
fn single_columns_for_each_set_of_columns() {
    let expected = single_columns();
    for columns in 0..512u32 {
        assert_eq!(column_single(columns), expected[columns as usize], "columns {:o}", columns);
    }
}

#[test]
fn shrink_mask_of_each_row() {
    let expected = shrunk();
    for row in 0..512u32 {
        assert_eq!(shrink_mask(row), expected[row as usize], "row {:o}", row);
    }
}

#[test]
fn row_mask_of_each_set_of_rows() {
    let expected: Vec<u32> = vec![
        0o000_000_000, 0o000_000_777, 0o000_777_000, 0o000_777_777,
        0o777_000_000, 0o777_000_777, 0o777_777_000, 0o777_777_777,
    ];
    for rows in 0..8u32 {
        assert_eq!(row_mask(rows), expected[rows as usize]);
    }
}

#[test]
fn neighbours_of_each_subband() {
    let expected: Vec<(usize, usize)> = vec![
        (1, 2), (2, 0), (0, 1),
        (4, 5), (5, 3), (3, 4),
        (7, 8), (8, 6), (6, 7),
        (10, 11), (11, 9), (9, 10),
        (13, 14), (14, 12), (12, 13),
        (16, 17), (17, 15), (15, 16),
        (19, 20), (20, 18), (18, 19),
        (22, 23), (23, 21), (21, 22),
        (25, 26), (26, 24), (24, 25),
    ];
    for subband in 0..27usize {
        assert_eq!(neighbour_subbands(subband), expected[subband]);
    }
}
