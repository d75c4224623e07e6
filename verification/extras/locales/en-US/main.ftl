# Interface captions, English. One message per line: id = text.
search-placeholder = Search files and folders
color-file-type = File type
color-recent = Recently changed
color-churn = Most changed
detail-normal = Normal
detail-high = High
detail-ultra = Ultra
detail-custom = Custom
fit = Fit
show-ignored = Show ignored
inspector = INSPECTOR
select-hint = Click something on the map
help-1 = Scroll: zoom
help-2 = Drag: pan (2D) or orbit (3D)
help-3 = Shift or right drag: pan (3D)
help-4 = Click: inspect
help-5 = Double click: fly to it
help-6 = Enter in search: next match
help-7 = Striped boxes are ignored by git.
help-8 = Click one to read it.
custom-detail = CUSTOM DETAIL
geometry-detail = Geometry detail
text-detail = Text detail
render-budget = Render budget (%)
