# 界面文字，简体中文。每行一条消息：id = 文字。
search-placeholder = 搜索文件和文件夹
color-file-type = 文件类型
color-recent = 最近更改
color-churn = 更改最多
detail-normal = 普通
detail-high = 高
detail-ultra = 极致
detail-custom = 自定义
fit = 适应窗口
show-ignored = 显示忽略项
inspector = 检查器
select-hint = 点击地图中的项目
help-1 = 滚轮：缩放
help-2 = 拖动：平移（2D）或环绕（3D）
help-3 = Shift 或右键拖动：平移（3D）
help-4 = 单击：检查
help-5 = 双击：飞至目标
help-6 = 搜索中按 Enter：下一个匹配项
help-7 = 条纹方块是 Git 忽略项。
help-8 = 点击可读取内容。
custom-detail = 自定义画质
geometry-detail = 几何细节
text-detail = 文字细节
render-budget = 渲染预算（%）
