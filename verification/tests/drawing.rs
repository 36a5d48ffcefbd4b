use xlsxparser::container::data::PartData;
use xlsxparser::model::cell::CellRef;
use xlsxparser::model::sheet::{AnchorMarker, Hyperlink, ImageAnchor, ImageExtent};
use xlsxparser::parse::drawing::{
    parse_drawing as parse_drawing_part, resolve_grouped_pic, GroupContext, PendingImage,
    Placement, MAX_GROUP_NESTING_DEPTH, MAX_PLAUSIBLE_EMU,
};
use xlsxparser::Error;

fn whole(xml: &[u8]) -> PartData {
    PartData::whole(xml.to_vec())
}

/// Places a picture by applying the transform of every group around it, innermost
/// first.
fn place(groups: &Vec<GroupContext>, off: (i64, i64), ext: (i64, i64)) -> Placement {
    let (mut x, mut y) = (off.0 as f64, off.1 as f64);
    let (mut cx, mut cy) = (ext.0 as f64, ext.1 as f64);
    for g in groups.iter().rev() {
        let scale_x = g.ext_cx as f64 / g.ch_ext_cx as f64;
        let scale_y = g.ext_cy as f64 / g.ch_ext_cy as f64;
        cx *= scale_x;
        cy *= scale_y;
        x = g.off_x as f64 + (x - g.ch_off_x as f64) * scale_x;
        y = g.off_y as f64 + (y - g.ch_off_y as f64) * scale_y;
    }
    let all = [x, y, cx, cy];
    if all.iter().any(|v| !v.is_finite()) {
        return Placement::NonFinite;
    }
    Placement::At {
        dx: x.round() as i64,
        dy: y.round() as i64,
        cx: cx.round() as i64,
        cy: cy.round() as i64,
    }
}

fn parse_drawing(xml: &[u8], path: &str) -> Result<Vec<PendingImage>, Error> {
    parse_drawing_part(&whole(xml), path, &place)
}

const NS: &str = r#"xmlns:xdr="http://schemas.openxmlformats.org/drawingml/2006/spreadsheetDrawing" xmlns:a="http://schemas.openxmlformats.org/drawingml/2006/main" xmlns:r="http://schemas.openxmlformats.org/officeDocument/2006/relationships""#;

fn marker_xml(tag: &str, col: u32, col_off: i64, row: u32, row_off: i64) -> String {
    format!(
        "<xdr:{tag}><xdr:col>{col}</xdr:col><xdr:colOff>{col_off}</xdr:colOff><xdr:row>{row}</xdr:row><xdr:rowOff>{row_off}</xdr:rowOff></xdr:{tag}>"
    )
}

/// Reads a marker as part of an anchor that has both markers already.
fn parse_marker_standalone(xml: &str) -> Result<AnchorMarker, Error> {
    let drawing = format!(
        r#"<xdr:wsDr {NS}><xdr:twoCellAnchor>{}{}{xml}<xdr:pic><a:blip r:embed="rId1"/></xdr:pic></xdr:twoCellAnchor></xdr:wsDr>"#,
        marker_xml("from", 0, 0, 0, 0),
        marker_xml("to", 0, 0, 0, 0),
    );
    let images = parse_drawing(drawing.as_bytes(), "drawing1.xml")?;
    match images[0].anchor {
        ImageAnchor::TwoCell { from, to } => Ok(if xml.starts_with("<xdr:to") { to } else { from }),
        ImageAnchor::OneCell { .. } => panic!("expected two markers"),
    }
}

#[test]
fn parse_marker_converts_zero_based_col_row_to_one_based_cell_ref() {
    let marker = parse_marker_standalone(&marker_xml("from", 4, 12345, 9, 67890)).unwrap();
    assert_eq!(marker.cell, CellRef { row: 10, col: 5 });
    assert_eq!(marker.col_off, 12345);
    assert_eq!(marker.row_off, 67890);
}

#[test]
fn parse_marker_defaults_missing_col_off_and_row_off_to_zero() {
    let xml = "<xdr:to><xdr:col>2</xdr:col><xdr:row>3</xdr:row></xdr:to>";
    let marker = parse_marker_standalone(xml).unwrap();
    assert_eq!(marker.cell, CellRef { row: 4, col: 3 });
    assert_eq!(marker.col_off, 0);
    assert_eq!(marker.row_off, 0);
}

#[test]
fn parse_marker_ignores_an_unrecognized_non_self_closing_child() {
    let xml = "<xdr:from><xdr:extLst></xdr:extLst><xdr:col>2</xdr:col><xdr:colOff>0</xdr:colOff><xdr:row>3</xdr:row><xdr:rowOff>0</xdr:rowOff></xdr:from>";
    let marker = parse_marker_standalone(xml).unwrap();
    assert_eq!(marker.cell, CellRef { row: 4, col: 3 });
}

#[test]
fn blip_and_hlink_click_as_explicit_start_end_tags_are_still_parsed() {
    let xml = format!(
        r#"<xdr:wsDr {NS}>
  <xdr:twoCellAnchor>
    {from}
    {to}
    <xdr:pic>
      <xdr:nvPicPr>
        <xdr:cNvPr id="2" name="Picture 1">
          <a:hlinkClick r:id="rId2"></a:hlinkClick>
        </xdr:cNvPr>
        <xdr:cNvPicPr/>
      </xdr:nvPicPr>
      <xdr:blipFill>
        <a:blip r:embed="rId1"></a:blip>
      </xdr:blipFill>
    </xdr:pic>
    <xdr:clientData/>
  </xdr:twoCellAnchor>
</xdr:wsDr>"#,
        from = marker_xml("from", 1, 10, 2, 20),
        to = marker_xml("to", 5, 0, 10, 0),
    );

    let images = parse_drawing(xml.as_bytes(), "xl/drawings/drawing1.xml").unwrap();
    assert_eq!(images.len(), 1);
    assert_eq!(images[0].embed_r_id, "rId1");
    assert_eq!(images[0].hyperlink_r_id.as_deref(), Some("rId2"));
}

#[test]
fn parses_two_cell_anchor_with_embed_and_hyperlink() {
    let xml = format!(
        r#"<xdr:wsDr {NS}>
  <xdr:twoCellAnchor>
    {from}
    {to}
    <xdr:pic>
      <xdr:nvPicPr>
        <xdr:cNvPr id="2" name="Picture 1">
          <a:hlinkClick r:id="rId2"/>
        </xdr:cNvPr>
        <xdr:cNvPicPr/>
      </xdr:nvPicPr>
      <xdr:blipFill>
        <a:blip r:embed="rId1"/>
      </xdr:blipFill>
    </xdr:pic>
    <xdr:clientData/>
  </xdr:twoCellAnchor>
</xdr:wsDr>"#,
        from = marker_xml("from", 1, 10, 2, 20),
        to = marker_xml("to", 5, 0, 10, 0),
    );

    let images = parse_drawing(xml.as_bytes(), "xl/drawings/drawing1.xml").unwrap();
    assert_eq!(images.len(), 1);
    let image = &images[0];
    assert_eq!(image.embed_r_id, "rId1");
    assert_eq!(image.hyperlink_r_id.as_deref(), Some("rId2"));
    assert_eq!(
        image.anchor,
        ImageAnchor::TwoCell {
            from: AnchorMarker {
                cell: CellRef { row: 3, col: 2 },
                col_off: 10,
                row_off: 20,
            },
            to: AnchorMarker {
                cell: CellRef { row: 11, col: 6 },
                col_off: 0,
                row_off: 0,
            },
        }
    );
}

#[test]
fn parses_one_cell_anchor_with_ext_and_no_hyperlink() {
    let xml = format!(
        r#"<xdr:wsDr {NS}>
  <xdr:oneCellAnchor>
    {from}
    <xdr:ext cx="952500" cy="952500"/>
    <xdr:pic>
      <xdr:nvPicPr>
        <xdr:cNvPr id="2" name="Picture 1"/>
        <xdr:cNvPicPr/>
      </xdr:nvPicPr>
      <xdr:blipFill>
        <a:blip r:embed="rId3"/>
      </xdr:blipFill>
    </xdr:pic>
  </xdr:oneCellAnchor>
</xdr:wsDr>"#,
        from = marker_xml("from", 0, 0, 0, 0),
    );

    let images = parse_drawing(xml.as_bytes(), "xl/drawings/drawing1.xml").unwrap();
    assert_eq!(images.len(), 1);
    let image = &images[0];
    assert_eq!(image.embed_r_id, "rId3");
    assert_eq!(image.hyperlink_r_id, None);
    assert_eq!(
        image.anchor,
        ImageAnchor::OneCell {
            from: AnchorMarker {
                cell: CellRef { row: 1, col: 1 },
                col_off: 0,
                row_off: 0,
            },
            ext: ImageExtent {
                cx: 952_500,
                cy: 952_500,
            },
        }
    );
}

#[test]
fn anchor_without_pic_is_skipped() {
    let xml = format!(
        r#"<xdr:wsDr {NS}>
  <xdr:twoCellAnchor>
    {from}
    {to}
    <xdr:sp/>
    <xdr:clientData/>
  </xdr:twoCellAnchor>
</xdr:wsDr>"#,
        from = marker_xml("from", 0, 0, 0, 0),
        to = marker_xml("to", 1, 0, 1, 0),
    );

    let images = parse_drawing(xml.as_bytes(), "xl/drawings/drawing1.xml").unwrap();
    assert!(images.is_empty());
}

#[test]
fn pic_without_blip_is_skipped() {
    let xml = format!(
        r#"<xdr:wsDr {NS}>
  <xdr:twoCellAnchor>
    {from}
    {to}
    <xdr:pic><xdr:blipFill></xdr:blipFill></xdr:pic>
    <xdr:clientData/>
  </xdr:twoCellAnchor>
</xdr:wsDr>"#,
        from = marker_xml("from", 0, 0, 0, 0),
        to = marker_xml("to", 1, 0, 1, 0),
    );

    let images = parse_drawing(xml.as_bytes(), "xl/drawings/drawing1.xml").unwrap();
    assert!(images.is_empty());
}

#[test]
fn multiple_anchors_all_parsed() {
    let xml = format!(
        r#"<xdr:wsDr {NS}>
  <xdr:oneCellAnchor>
    {from1}
    <xdr:ext cx="100" cy="100"/>
    <xdr:pic><xdr:blipFill><a:blip r:embed="rId1"/></xdr:blipFill></xdr:pic>
  </xdr:oneCellAnchor>
  <xdr:twoCellAnchor>
    {from2}
    {to2}
    <xdr:pic><xdr:blipFill><a:blip r:embed="rId2"/></xdr:blipFill></xdr:pic>
  </xdr:twoCellAnchor>
</xdr:wsDr>"#,
        from1 = marker_xml("from", 0, 0, 0, 0),
        from2 = marker_xml("from", 2, 0, 2, 0),
        to2 = marker_xml("to", 3, 0, 3, 0),
    );

    let images = parse_drawing(xml.as_bytes(), "xl/drawings/drawing1.xml").unwrap();
    assert_eq!(images.len(), 2);
    assert_eq!(images[0].embed_r_id, "rId1");
    assert_eq!(images[1].embed_r_id, "rId2");
}

#[test]
fn missing_blip_embed_is_missing_required_element() {
    let xml = format!(
        r#"<xdr:wsDr {NS}>
  <xdr:oneCellAnchor>
    {from}
    <xdr:ext cx="100" cy="100"/>
    <xdr:pic><xdr:blipFill><a:blip/></xdr:blipFill></xdr:pic>
  </xdr:oneCellAnchor>
</xdr:wsDr>"#,
        from = marker_xml("from", 0, 0, 0, 0),
    );

    let err = parse_drawing(xml.as_bytes(), "xl/drawings/drawing1.xml").unwrap_err();
    assert!(matches!(
        err,
        Error::MissingRequiredElement {
            name: "r:embed",
            ..
        }
    ));
}

#[test]
fn out_of_range_row_is_invalid_cell_ref() {
    let xml = format!(
        r#"<xdr:wsDr {NS}>
  <xdr:oneCellAnchor>
    {from}
    <xdr:ext cx="100" cy="100"/>
    <xdr:pic><xdr:blipFill><a:blip r:embed="rId1"/></xdr:blipFill></xdr:pic>
  </xdr:oneCellAnchor>
</xdr:wsDr>"#,
        from = marker_xml("from", 0, 0, 4_294_967_295, 0),
    );

    let err = parse_drawing(xml.as_bytes(), "xl/drawings/drawing1.xml").unwrap_err();
    assert!(matches!(err, Error::InvalidCellRef(_)));
}

#[test]
fn malformed_ext_attribute_is_invalid_package() {
    let xml = format!(
        r#"<xdr:wsDr {NS}>
  <xdr:oneCellAnchor>
    {from}
    <xdr:ext cx="not-a-number" cy="100"/>
    <xdr:pic><xdr:blipFill><a:blip r:embed="rId1"/></xdr:blipFill></xdr:pic>
  </xdr:oneCellAnchor>
</xdr:wsDr>"#,
        from = marker_xml("from", 0, 0, 0, 0),
    );

    let err = parse_drawing(xml.as_bytes(), "xl/drawings/drawing1.xml").unwrap_err();
    assert!(matches!(err, Error::InvalidPackage(_)));
}

#[test]
fn empty_drawing_produces_no_images() {
    let xml = format!(r#"<xdr:wsDr {NS}></xdr:wsDr>"#);
    let images = parse_drawing(xml.as_bytes(), "xl/drawings/drawing1.xml").unwrap();
    assert!(images.is_empty());
}

#[test]
fn one_cell_anchor_ext_is_not_overwritten_by_pics_own_sppr_xfrm_ext() {
    let xml = format!(
        r#"<xdr:wsDr {NS}>
  <xdr:oneCellAnchor>
    {from}
    <xdr:ext cx="100" cy="200"/>
    <xdr:pic>
      <xdr:spPr>
        <a:xfrm><a:off x="1" y="2"/><a:ext cx="999" cy="888"/></a:xfrm>
      </xdr:spPr>
      <xdr:blipFill><a:blip r:embed="rId1"/></xdr:blipFill>
    </xdr:pic>
  </xdr:oneCellAnchor>
</xdr:wsDr>"#,
        from = marker_xml("from", 0, 0, 0, 0),
    );

    let images = parse_drawing(xml.as_bytes(), "xl/drawings/drawing1.xml").unwrap();
    assert_eq!(images.len(), 1);
    assert!(matches!(
        images[0].anchor,
        ImageAnchor::OneCell {
            ext: ImageExtent { cx: 100, cy: 200 },
            ..
        }
    ));
}

#[test]
fn anchor_body_eof_before_closing_tag_is_missing_required_element() {
    let xml = format!(
        r#"<xdr:wsDr {NS}><xdr:twoCellAnchor>{from}{to}<xdr:pic><xdr:blipFill><a:blip r:embed="rId1"/></xdr:blipFill></xdr:pic>"#,
        from = marker_xml("from", 0, 0, 0, 0),
        to = marker_xml("to", 1, 0, 1, 0),
    );
    let err = parse_drawing(xml.as_bytes(), "xl/drawings/drawing1.xml").unwrap_err();
    assert!(matches!(
        err,
        Error::MissingRequiredElement {
            name: "closing tag",
            ..
        }
    ));
}

#[test]
fn two_cell_anchor_with_pic_but_no_from_is_missing_required_element() {
    let xml = format!(
        r#"<xdr:wsDr {NS}>
  <xdr:twoCellAnchor>
    {to}
    <xdr:pic><xdr:blipFill><a:blip r:embed="rId1"/></xdr:blipFill></xdr:pic>
  </xdr:twoCellAnchor>
</xdr:wsDr>"#,
        to = marker_xml("to", 1, 0, 1, 0),
    );
    let err = parse_drawing(xml.as_bytes(), "xl/drawings/drawing1.xml").unwrap_err();
    assert!(matches!(
        err,
        Error::MissingRequiredElement {
            name: "xdr:from",
            ..
        }
    ));
}

#[test]
fn two_cell_anchor_with_pic_but_no_to_is_missing_required_element() {
    let xml = format!(
        r#"<xdr:wsDr {NS}>
  <xdr:twoCellAnchor>
    {from}
    <xdr:pic><xdr:blipFill><a:blip r:embed="rId1"/></xdr:blipFill></xdr:pic>
  </xdr:twoCellAnchor>
</xdr:wsDr>"#,
        from = marker_xml("from", 0, 0, 0, 0),
    );
    let err = parse_drawing(xml.as_bytes(), "xl/drawings/drawing1.xml").unwrap_err();
    assert!(matches!(
        err,
        Error::MissingRequiredElement { name: "xdr:to", .. }
    ));
}

#[test]
fn one_cell_anchor_with_pic_but_no_from_is_missing_required_element() {
    let xml = format!(
        r#"<xdr:wsDr {NS}>
  <xdr:oneCellAnchor>
    <xdr:ext cx="100" cy="100"/>
    <xdr:pic><xdr:blipFill><a:blip r:embed="rId1"/></xdr:blipFill></xdr:pic>
  </xdr:oneCellAnchor>
</xdr:wsDr>"#
    );
    let err = parse_drawing(xml.as_bytes(), "xl/drawings/drawing1.xml").unwrap_err();
    assert!(matches!(
        err,
        Error::MissingRequiredElement {
            name: "xdr:from",
            ..
        }
    ));
}

#[test]
fn one_cell_anchor_with_pic_but_no_ext_is_missing_required_element() {
    let xml = format!(
        r#"<xdr:wsDr {NS}>
  <xdr:oneCellAnchor>
    {from}
    <xdr:pic><xdr:blipFill><a:blip r:embed="rId1"/></xdr:blipFill></xdr:pic>
  </xdr:oneCellAnchor>
</xdr:wsDr>"#,
        from = marker_xml("from", 0, 0, 0, 0),
    );
    let err = parse_drawing(xml.as_bytes(), "xl/drawings/drawing1.xml").unwrap_err();
    assert!(matches!(
        err,
        Error::MissingRequiredElement {
            name: "xdr:ext",
            ..
        }
    ));
}

#[test]
fn marker_eof_before_closing_tag_is_missing_required_element() {
    let xml = format!(
        r#"<xdr:wsDr {NS}>
  <xdr:oneCellAnchor>
    <xdr:from><xdr:col>0</xdr:col><xdr:row>0</xdr:row>"#
    );
    let err = parse_drawing(xml.as_bytes(), "xl/drawings/drawing1.xml").unwrap_err();
    assert!(matches!(
        err,
        Error::MissingRequiredElement {
            name: "closing tag",
            ..
        }
    ));
}

#[test]
fn marker_missing_col_is_missing_required_element() {
    let xml = format!(
        r#"<xdr:wsDr {NS}>
  <xdr:oneCellAnchor>
    <xdr:from><xdr:row>0</xdr:row></xdr:from>
    <xdr:ext cx="100" cy="100"/>
    <xdr:pic><xdr:blipFill><a:blip r:embed="rId1"/></xdr:blipFill></xdr:pic>
  </xdr:oneCellAnchor>
</xdr:wsDr>"#
    );
    let err = parse_drawing(xml.as_bytes(), "xl/drawings/drawing1.xml").unwrap_err();
    assert!(matches!(
        err,
        Error::MissingRequiredElement {
            name: "xdr:col",
            ..
        }
    ));
}

#[test]
fn marker_ignores_whitespace_between_child_elements() {
    let xml = format!(
        r#"<xdr:wsDr {NS}>
  <xdr:oneCellAnchor>
    <xdr:from>
      <xdr:col>2</xdr:col>
      <xdr:colOff>5000</xdr:colOff>
      <xdr:row>4</xdr:row>
      <xdr:rowOff>5000</xdr:rowOff>
    </xdr:from>
    <xdr:ext cx="100" cy="100"/>
    <xdr:pic><xdr:blipFill><a:blip r:embed="rId1"/></xdr:blipFill></xdr:pic>
  </xdr:oneCellAnchor>
</xdr:wsDr>"#
    );
    let images = parse_drawing(xml.as_bytes(), "xl/drawings/drawing1.xml").unwrap();
    assert_eq!(images.len(), 1);
    assert_eq!(
        images[0].anchor,
        ImageAnchor::OneCell {
            from: AnchorMarker {
                cell: CellRef { row: 5, col: 3 },
                col_off: 5000,
                row_off: 5000,
            },
            ext: ImageExtent { cx: 100, cy: 100 },
        }
    );
}

#[test]
fn marker_missing_row_is_missing_required_element() {
    let xml = format!(
        r#"<xdr:wsDr {NS}>
  <xdr:oneCellAnchor>
    <xdr:from><xdr:col>0</xdr:col></xdr:from>
    <xdr:ext cx="100" cy="100"/>
    <xdr:pic><xdr:blipFill><a:blip r:embed="rId1"/></xdr:blipFill></xdr:pic>
  </xdr:oneCellAnchor>
</xdr:wsDr>"#
    );
    let err = parse_drawing(xml.as_bytes(), "xl/drawings/drawing1.xml").unwrap_err();
    assert!(matches!(
        err,
        Error::MissingRequiredElement {
            name: "xdr:row",
            ..
        }
    ));
}

fn pic_xml(embed_r_id: &str, hyperlink: Option<&str>) -> String {
    let hlink = hyperlink
        .map(|id| format!(r#"<a:hlinkClick r:id="{id}"/>"#))
        .unwrap_or_default();
    format!(
        r#"<xdr:pic>
        <xdr:nvPicPr><xdr:cNvPr id="2" name="Picture">{hlink}</xdr:cNvPr><xdr:cNvPicPr/></xdr:nvPicPr>
        <xdr:blipFill><a:blip r:embed="{embed_r_id}"/></xdr:blipFill>
        <xdr:spPr><a:xfrm><a:off x="1080000" y="720000"/><a:ext cx="720000" cy="360000"/></a:xfrm></xdr:spPr>
      </xdr:pic>"#
    )
}

#[test]
fn single_level_group_resolves_each_pic_relative_to_from() {
    let xml = format!(
        r#"<xdr:wsDr {NS}>
  <xdr:twoCellAnchor editAs="absolute">
    {from}
    {to}
    <xdr:grpSp>
      <xdr:nvGrpSpPr><xdr:cNvPr id="1" name=""/><xdr:cNvGrpSpPr/></xdr:nvGrpSpPr>
      <xdr:grpSpPr>
        <a:xfrm>
          <a:off x="1080000" y="720000"/><a:ext cx="1800000" cy="540000"/>
          <a:chOff x="1080000" y="720000"/><a:chExt cx="1800000" cy="540000"/>
        </a:xfrm>
      </xdr:grpSpPr>
      {pic1}
      {pic2}
    </xdr:grpSp>
    <xdr:clientData/>
  </xdr:twoCellAnchor>
</xdr:wsDr>"#,
        from = marker_xml("from", 1, 267_120, 4, 69_840),
        to = marker_xml("to", 3, 441_720, 7, 122_040),
        pic1 = pic_xml("rId1", None),
        pic2 = {
            let mut s = pic_xml("rId2", Some("rId3"));
            s = s.replace(
                r#"<a:off x="1080000" y="720000"/><a:ext cx="720000" cy="360000"/>"#,
                r#"<a:off x="2160000" y="720000"/><a:ext cx="720000" cy="540000"/>"#,
            );
            s
        },
    );

    let images = parse_drawing(xml.as_bytes(), "xl/drawings/drawing1.xml").unwrap();
    assert_eq!(images.len(), 2);

    assert_eq!(images[0].embed_r_id, "rId1");
    assert_eq!(images[0].hyperlink_r_id, None);
    assert_eq!(
        images[0].anchor,
        ImageAnchor::OneCell {
            from: AnchorMarker {
                cell: CellRef { row: 5, col: 2 }, // same cell as the anchor's own `from`
                col_off: 267_120,                 // delta 0, same as the group's own off
                row_off: 69_840,
            },
            ext: ImageExtent {
                cx: 720_000,
                cy: 360_000,
            },
        }
    );

    assert_eq!(images[1].embed_r_id, "rId2");
    assert_eq!(images[1].hyperlink_r_id.as_deref(), Some("rId3"));
    assert_eq!(
        images[1].anchor,
        ImageAnchor::OneCell {
            from: AnchorMarker {
                cell: CellRef { row: 5, col: 2 },
                col_off: 267_120 + 1_080_000,
                row_off: 69_840,
            },
            ext: ImageExtent {
                cx: 720_000,
                cy: 540_000
            },
        }
    );
}

#[test]
fn nested_group_resolves_correctly() {
    let xml = format!(
        r#"<xdr:wsDr {NS}>
  <xdr:oneCellAnchor>
    {from}
    <xdr:ext cx="1" cy="1"/>
    <xdr:grpSp>
      <xdr:nvGrpSpPr><xdr:cNvPr id="1" name=""/><xdr:cNvGrpSpPr/></xdr:nvGrpSpPr>
      <xdr:grpSpPr><a:xfrm>
        <a:off x="777" y="777"/><a:ext cx="1000000" cy="1000000"/>
        <a:chOff x="0" y="0"/><a:chExt cx="1000000" cy="1000000"/>
      </a:xfrm></xdr:grpSpPr>
      <xdr:grpSp>
        <xdr:nvGrpSpPr><xdr:cNvPr id="2" name=""/><xdr:cNvGrpSpPr/></xdr:nvGrpSpPr>
        <xdr:grpSpPr><a:xfrm>
          <a:off x="100000" y="50000"/><a:ext cx="400000" cy="200000"/>
          <a:chOff x="0" y="0"/><a:chExt cx="400000" cy="200000"/>
        </a:xfrm></xdr:grpSpPr>
        <xdr:grpSp>
          <xdr:nvGrpSpPr><xdr:cNvPr id="3" name=""/><xdr:cNvGrpSpPr/></xdr:nvGrpSpPr>
          <xdr:grpSpPr><a:xfrm>
            <a:off x="10000" y="5000"/><a:ext cx="100000" cy="50000"/>
            <a:chOff x="0" y="0"/><a:chExt cx="400000" cy="200000"/>
          </a:xfrm></xdr:grpSpPr>
          <xdr:pic>
            <xdr:nvPicPr><xdr:cNvPr id="4" name=""/><xdr:cNvPicPr/></xdr:nvPicPr>
            <xdr:blipFill><a:blip r:embed="rId1"/></xdr:blipFill>
            <xdr:spPr><a:xfrm><a:off x="40000" y="20000"/><a:ext cx="80000" cy="40000"/></a:xfrm></xdr:spPr>
          </xdr:pic>
        </xdr:grpSp>
      </xdr:grpSp>
    </xdr:grpSp>
  </xdr:oneCellAnchor>
</xdr:wsDr>"#,
        from = marker_xml("from", 0, 1000, 0, 2000),
    );

    let images = parse_drawing(xml.as_bytes(), "xl/drawings/drawing1.xml").unwrap();
    assert_eq!(images.len(), 1);
    assert_eq!(
        images[0].anchor,
        ImageAnchor::OneCell {
            from: AnchorMarker {
                cell: CellRef { row: 1, col: 1 },
                col_off: 1000 + 120_000,
                row_off: 2000 + 60_000,
            },
            ext: ImageExtent {
                cx: 20_000,
                cy: 10_000
            },
        }
    );
}

fn nested_groups_xml(depth: usize) -> String {
    let open: String = (0..depth)
        .map(|i| {
            format!(
                r#"<xdr:grpSp><xdr:nvGrpSpPr><xdr:cNvPr id="{}" name=""/><xdr:cNvGrpSpPr/></xdr:nvGrpSpPr><xdr:grpSpPr><a:xfrm><a:off x="0" y="0"/><a:ext cx="100" cy="100"/><a:chOff x="0" y="0"/><a:chExt cx="100" cy="100"/></a:xfrm></xdr:grpSpPr>"#,
                i + 1
            )
        })
        .collect();
    let close = "</xdr:grpSp>".repeat(depth);
    format!(
        r#"<xdr:wsDr {NS}>
  <xdr:oneCellAnchor>
    {from}
    <xdr:ext cx="1" cy="1"/>
    {open}
    {pic}
    {close}
  </xdr:oneCellAnchor>
</xdr:wsDr>"#,
        from = marker_xml("from", 0, 0, 0, 0),
        pic = pic_xml("rId1", None),
    )
}

#[test]
fn group_nesting_depth_at_the_limit_is_accepted() {
    let xml = nested_groups_xml(MAX_GROUP_NESTING_DEPTH);
    let images = parse_drawing(xml.as_bytes(), "xl/drawings/drawing1.xml").unwrap();
    assert_eq!(images.len(), 1);
}

#[test]
fn group_nesting_depth_over_the_limit_is_too_many_nested_groups() {
    let xml = nested_groups_xml(MAX_GROUP_NESTING_DEPTH + 1);
    let err = parse_drawing(xml.as_bytes(), "xl/drawings/drawing1.xml").unwrap_err();
    assert!(matches!(
        err,
        Error::TooManyNestedGroups {
            depth,
            limit,
            ..
        } if depth == MAX_GROUP_NESTING_DEPTH + 1 && limit == MAX_GROUP_NESTING_DEPTH
    ));
}

#[test]
fn extreme_group_transform_scale_is_rejected_as_invalid_package() {
    let xml = format!(
        r#"<xdr:wsDr {NS}>
  <xdr:oneCellAnchor>
    {from}
    <xdr:ext cx="1" cy="1"/>
    <xdr:grpSp>
      <xdr:nvGrpSpPr><xdr:cNvPr id="1" name=""/><xdr:cNvGrpSpPr/></xdr:nvGrpSpPr>
      <xdr:grpSpPr><a:xfrm>
        <a:off x="0" y="0"/><a:ext cx="9223372036854775807" cy="9223372036854775807"/>
        <a:chOff x="0" y="0"/><a:chExt cx="1" cy="1"/>
      </a:xfrm></xdr:grpSpPr>
      <xdr:grpSp>
        <xdr:nvGrpSpPr><xdr:cNvPr id="2" name=""/><xdr:cNvGrpSpPr/></xdr:nvGrpSpPr>
        <xdr:grpSpPr><a:xfrm>
          <a:off x="0" y="0"/><a:ext cx="9223372036854775807" cy="9223372036854775807"/>
          <a:chOff x="0" y="0"/><a:chExt cx="1" cy="1"/>
        </a:xfrm></xdr:grpSpPr>
        {pic}
      </xdr:grpSp>
    </xdr:grpSp>
  </xdr:oneCellAnchor>
</xdr:wsDr>"#,
        from = marker_xml("from", 0, 0, 0, 0),
        pic = pic_xml("rId1", None),
    );

    let err = parse_drawing(xml.as_bytes(), "xl/drawings/drawing1.xml").unwrap_err();
    assert!(matches!(err, Error::InvalidPackage(_)));
}

#[test]
fn group_transform_overflowing_to_infinity_is_rejected_as_invalid_package() {
    let levels = 20;
    let open: String = (0..levels)
        .map(|i| {
            format!(
                r#"<xdr:grpSp><xdr:nvGrpSpPr><xdr:cNvPr id="{}" name=""/><xdr:cNvGrpSpPr/></xdr:nvGrpSpPr><xdr:grpSpPr><a:xfrm><a:off x="0" y="0"/><a:ext cx="9223372036854775807" cy="9223372036854775807"/><a:chOff x="0" y="0"/><a:chExt cx="1" cy="1"/></a:xfrm></xdr:grpSpPr>"#,
                i + 1
            )
        })
        .collect();
    let close = "</xdr:grpSp>".repeat(levels);
    let xml = format!(
        r#"<xdr:wsDr {NS}>
  <xdr:oneCellAnchor>
    {from}
    <xdr:ext cx="1" cy="1"/>
    {open}
    {pic}
    {close}
  </xdr:oneCellAnchor>
</xdr:wsDr>"#,
        from = marker_xml("from", 0, 0, 0, 0),
        pic = pic_xml("rId1", None),
    );

    let err = parse_drawing(xml.as_bytes(), "xl/drawings/drawing1.xml").unwrap_err();
    assert!(matches!(err, Error::InvalidPackage(_)));
}

#[test]
fn group_level_hyperlink_does_not_leak_into_first_pic() {
    let xml = format!(
        r#"<xdr:wsDr {NS}>
  <xdr:twoCellAnchor editAs="absolute">
    {from}
    {to}
    <xdr:grpSp>
      <xdr:nvGrpSpPr>
        <xdr:cNvPr id="1" name="Group 1"><a:hlinkClick r:id="rIdGroupLink"/></xdr:cNvPr>
        <xdr:cNvGrpSpPr/>
      </xdr:nvGrpSpPr>
      <xdr:grpSpPr><a:xfrm>
        <a:off x="0" y="0"/><a:ext cx="100" cy="100"/>
        <a:chOff x="0" y="0"/><a:chExt cx="100" cy="100"/>
      </a:xfrm></xdr:grpSpPr>
      {pic}
    </xdr:grpSp>
  </xdr:twoCellAnchor>
</xdr:wsDr>"#,
        from = marker_xml("from", 0, 0, 0, 0),
        to = marker_xml("to", 1, 0, 1, 0),
        pic = pic_xml("rId1", None),
    );

    let images = parse_drawing(xml.as_bytes(), "xl/drawings/drawing1.xml").unwrap();
    assert_eq!(images.len(), 1);
    assert_eq!(images[0].hyperlink_r_id, None);
}

#[test]
fn hyperlink_does_not_leak_from_one_grouped_pic_to_the_next() {
    let xml = format!(
        r#"<xdr:wsDr {NS}>
  <xdr:twoCellAnchor editAs="absolute">
    {from}
    {to}
    <xdr:grpSp>
      <xdr:nvGrpSpPr><xdr:cNvPr id="1" name=""/><xdr:cNvGrpSpPr/></xdr:nvGrpSpPr>
      <xdr:grpSpPr><a:xfrm>
        <a:off x="0" y="0"/><a:ext cx="100" cy="100"/>
        <a:chOff x="0" y="0"/><a:chExt cx="100" cy="100"/>
      </a:xfrm></xdr:grpSpPr>
      {pic1}
      {pic2}
    </xdr:grpSp>
  </xdr:twoCellAnchor>
</xdr:wsDr>"#,
        from = marker_xml("from", 0, 0, 0, 0),
        to = marker_xml("to", 1, 0, 1, 0),
        pic1 = pic_xml("rId1", Some("rIdHyperlink1")),
        pic2 = pic_xml("rId2", None),
    );

    let images = parse_drawing(xml.as_bytes(), "xl/drawings/drawing1.xml").unwrap();
    assert_eq!(images.len(), 2);
    assert_eq!(images[0].hyperlink_r_id.as_deref(), Some("rIdHyperlink1"));
    assert_eq!(images[1].hyperlink_r_id, None);
}

#[test]
fn group_with_zero_ch_ext_is_invalid_package() {
    let xml = format!(
        r#"<xdr:wsDr {NS}>
  <xdr:twoCellAnchor editAs="absolute">
    {from}
    {to}
    <xdr:grpSp>
      <xdr:nvGrpSpPr><xdr:cNvPr id="1" name=""/><xdr:cNvGrpSpPr/></xdr:nvGrpSpPr>
      <xdr:grpSpPr><a:xfrm>
        <a:off x="0" y="0"/><a:ext cx="100" cy="100"/>
        <a:chOff x="0" y="0"/><a:chExt cx="0" cy="100"/>
      </a:xfrm></xdr:grpSpPr>
      {pic}
    </xdr:grpSp>
  </xdr:twoCellAnchor>
</xdr:wsDr>"#,
        from = marker_xml("from", 0, 0, 0, 0),
        to = marker_xml("to", 1, 0, 1, 0),
        pic = pic_xml("rId1", None),
    );

    let err = parse_drawing(xml.as_bytes(), "xl/drawings/drawing1.xml").unwrap_err();
    assert!(matches!(err, Error::InvalidPackage(_)));
}

#[test]
fn group_with_only_non_picture_shapes_yields_no_images() {
    let xml = format!(
        r#"<xdr:wsDr {NS}>
  <xdr:twoCellAnchor editAs="absolute">
    {from}
    {to}
    <xdr:grpSp>
      <xdr:nvGrpSpPr><xdr:cNvPr id="1" name=""/><xdr:cNvGrpSpPr/></xdr:nvGrpSpPr>
      <xdr:grpSpPr><a:xfrm>
        <a:off x="0" y="0"/><a:ext cx="100" cy="100"/>
        <a:chOff x="0" y="0"/><a:chExt cx="100" cy="100"/>
      </a:xfrm></xdr:grpSpPr>
      <xdr:sp><xdr:spPr><a:xfrm><a:off x="0" y="0"/><a:ext cx="10" cy="10"/></a:xfrm></xdr:spPr></xdr:sp>
    </xdr:grpSp>
  </xdr:twoCellAnchor>
</xdr:wsDr>"#,
        from = marker_xml("from", 0, 0, 0, 0),
        to = marker_xml("to", 1, 0, 1, 0),
    );

    let images = parse_drawing(xml.as_bytes(), "xl/drawings/drawing1.xml").unwrap();
    assert!(images.is_empty());
}

#[test]
fn grouped_pic_with_anchor_missing_from_is_missing_required_element() {
    let xml = format!(
        r#"<xdr:wsDr {NS}>
  <xdr:oneCellAnchor>
    <xdr:ext cx="1" cy="1"/>
    <xdr:grpSp>
      <xdr:nvGrpSpPr><xdr:cNvPr id="1" name=""/><xdr:cNvGrpSpPr/></xdr:nvGrpSpPr>
      <xdr:grpSpPr><a:xfrm>
        <a:off x="0" y="0"/><a:ext cx="100" cy="100"/>
        <a:chOff x="0" y="0"/><a:chExt cx="100" cy="100"/>
      </a:xfrm></xdr:grpSpPr>
      {pic}
    </xdr:grpSp>
  </xdr:oneCellAnchor>
</xdr:wsDr>"#,
        pic = pic_xml("rId1", None),
    );

    let err = parse_drawing(xml.as_bytes(), "xl/drawings/drawing1.xml").unwrap_err();
    assert!(matches!(
        err,
        Error::MissingRequiredElement {
            name: "xdr:from",
            ..
        }
    ));
}

#[test]
fn a_placement_that_fails_becomes_the_error_that_tells_why() {
    let groups = vec![GroupContext {
        off_x: 0,
        off_y: 0,
        ext_cx: 1,
        ext_cy: 1,
        ch_off_x: 0,
        ch_off_y: 0,
        ch_ext_cx: 1,
        ch_ext_cy: 1,
    }];
    let answers = [
        (Placement::At { dx: 1, dy: 2, cx: 3, cy: 4 }, Ok((1, 2, 3, 4))),
        (
            Placement::NonFinite,
            Err("drawing group transform produced a non-finite coordinate in d.xml"),
        ),
        (
            Placement::TooLarge,
            Err("drawing group transform produced an implausibly large coordinate in d.xml"),
        ),
    ];
    for (answer, expected) in answers {
        let got = resolve_grouped_pic(&groups, "d.xml", (5, 6), (7, 8), &|g: &Vec<GroupContext>, off, ext| {
            assert_eq!(g.len(), 1);
            assert_eq!((off, ext), ((5, 6), (7, 8)));
            answer
        });
        assert_eq!(got, expected.map_err(|m: &str| Error::InvalidPackage(m.to_string())));
    }
}

#[test]
fn hyperlink_of_a_picture_without_data_does_not_reach_the_next_picture() {
    for (open, close) in [
        ("", ""),
        (
            r#"<xdr:grpSp><xdr:grpSpPr><a:xfrm><a:off x="0" y="0"/><a:ext cx="9" cy="9"/><a:chOff x="0" y="0"/><a:chExt cx="9" cy="9"/></a:xfrm></xdr:grpSpPr>"#,
            "</xdr:grpSp>",
        ),
    ] {
        let xml = format!(
            r#"<xdr:wsDr {NS}><xdr:oneCellAnchor>{from}<xdr:ext cx="1" cy="1"/>{open}<xdr:pic><a:hlinkClick r:id="rId9"/></xdr:pic><xdr:pic><a:blip r:embed="rId1"/></xdr:pic>{close}</xdr:oneCellAnchor></xdr:wsDr>"#,
            from = marker_xml("from", 0, 0, 0, 0),
        );
        let images = parse_drawing(xml.as_bytes(), "xl/drawings/drawing1.xml").unwrap();
        assert_eq!(images.len(), 1);
        assert_eq!(images[0].embed_r_id, "rId1");
        assert_eq!(images[0].hyperlink_r_id, None);
    }
}

#[test]
fn position_and_size_of_a_picture_without_data_do_not_reach_the_next_picture() {
    let xml = format!(
        r#"<xdr:wsDr {NS}><xdr:oneCellAnchor>{from}<xdr:ext cx="1" cy="1"/><xdr:grpSp><xdr:grpSpPr><a:xfrm><a:off x="0" y="0"/><a:ext cx="9" cy="9"/><a:chOff x="0" y="0"/><a:chExt cx="9" cy="9"/></a:xfrm></xdr:grpSpPr><xdr:pic><xdr:spPr><a:xfrm><a:off x="3" y="4"/><a:ext cx="5" cy="6"/></a:xfrm></xdr:spPr></xdr:pic><xdr:pic><a:blip r:embed="rId1"/></xdr:pic></xdr:grpSp></xdr:oneCellAnchor></xdr:wsDr>"#,
        from = marker_xml("from", 2, 10, 3, 20),
    );
    let images = parse_drawing(xml.as_bytes(), "xl/drawings/drawing1.xml").unwrap();
    assert_eq!(images.len(), 1);
    assert_eq!(
        images[0].anchor,
        ImageAnchor::OneCell {
            from: AnchorMarker { cell: CellRef { row: 4, col: 3 }, col_off: 10, row_off: 20 },
            ext: ImageExtent { cx: 0, cy: 0 },
        }
    );
}

fn unit_group() -> GroupContext {
    GroupContext { ext_cx: 1, ext_cy: 1, ch_ext_cx: 1, ch_ext_cy: 1, ..GroupContext::default() }
}

#[test]
fn coordinates_beyond_the_bound_are_refused_and_those_at_it_are_not() {
    let groups = vec![unit_group()];
    let max = MAX_PLAUSIBLE_EMU;
    assert_eq!(max, 1_000_000_000_000);
    let at = |v: [i64; 4]| {
        resolve_grouped_pic(&groups, "d.xml", (0, 0), (0, 0), &|_: &Vec<GroupContext>, _, _| {
            Placement::At { dx: v[0], dy: v[1], cx: v[2], cy: v[3] }
        })
    };
    assert_eq!(at([max, -max, max, -max]), Ok((max, -max, max, -max)));
    for i in 0..4 {
        for beyond in [max + 1, -max - 1, i64::MAX, i64::MIN] {
            let mut v = [0; 4];
            v[i] = beyond;
            assert_eq!(
                at(v),
                Err(Error::InvalidPackage(
                    "drawing group transform produced an implausibly large coordinate in d.xml"
                        .to_string()
                ))
            );
        }
    }
}

#[test]
fn coordinates_that_scale_past_the_bound_are_refused() {
    let groups =
        vec![GroupContext { ext_cx: i64::MAX, ext_cy: 1, ch_ext_cx: 1, ch_ext_cy: 1, ..unit_group() }];
    assert_eq!(
        resolve_grouped_pic(&groups, "d.xml", (0, 0), (1, 1), &place),
        Err(Error::InvalidPackage(
            "drawing group transform produced an implausibly large coordinate in d.xml".to_string()
        ))
    );
    assert_eq!(resolve_grouped_pic(&groups, "d.xml", (0, 0), (0, 1), &place), Ok((0, 0, 0, 1)));
}

#[test]
fn offset_of_the_outermost_group_has_no_say_and_that_of_an_inner_one_has() {
    let outer = GroupContext { ext_cx: 20, ext_cy: 30, ch_ext_cx: 10, ch_ext_cy: 10, ..unit_group() };
    let inner = GroupContext { off_x: 4, off_y: 5, ..unit_group() };
    for (off_x, off_y) in [(0, 0), (7, -8), (i64::MAX, i64::MIN)] {
        let groups = vec![GroupContext { off_x, off_y, ..outer }, inner];
        assert_eq!(
            resolve_grouped_pic(&groups, "d.xml", (1, 2), (3, 4), &place),
            Ok((10, 21, 6, 12))
        );
    }
    let moved = vec![outer, GroupContext { off_x: 5, ..inner }];
    assert_eq!(
        resolve_grouped_pic(&moved, "d.xml", (1, 2), (3, 4), &place),
        Ok((12, 21, 6, 12))
    );
}

#[test]
fn a_default_hyperlink_leads_nowhere() {
    let link = Hyperlink::default();
    assert_eq!(link, Hyperlink { target: None, location: None, tooltip: None });
    assert_eq!(link.clone(), link);
}

#[test]
fn data_outside_a_picture_is_passed_over() {
    let xml = format!(
        r#"<xdr:wsDr {NS}><xdr:oneCellAnchor>{from}<xdr:ext cx="1" cy="1"/><xdr:sp><a:blip r:embed="rId9"/><a:blip/></xdr:sp><xdr:pic></xdr:pic><xdr:pic><a:blip r:embed="rId1"/></xdr:pic><a:blip/></xdr:oneCellAnchor></xdr:wsDr>"#,
        from = marker_xml("from", 0, 0, 0, 0),
    );
    let images = parse_drawing(xml.as_bytes(), "xl/drawings/drawing1.xml").unwrap();
    let ids: Vec<&str> = images.iter().map(|i| i.embed_r_id.as_str()).collect();
    assert_eq!(ids, ["rId1"]);
}
